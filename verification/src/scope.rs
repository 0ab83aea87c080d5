//! The scoped resource lifecycle manager.
//!
//! A `Tracker` plays the role of a lexical scope: resources are registered
//! in construction order, each either a leaf (a single opaque unit of state)
//! or a composite that exclusively owns one inner leaf. Releasing a resource
//! appends its teardown notifications to the log: for a composite, the outer
//! notification strictly before the inner one. A resource is released either
//! once, explicitly, by `release_now`, or once, implicitly, by `end_scope`,
//! which sweeps the still-live entries in reverse construction order.

use vstd::prelude::*;

verus! {

/// The lifecycle state of a tracked resource: the single legal transition is
/// `Live` to `Released`, and it is irreversible.
#[derive(Clone, Copy, PartialEq, Eq, Structural)]
pub enum Status {
    Live,
    Released,
}

/// What a tracked resource owns: nothing beyond itself, or exactly one inner
/// resource, identified by the inner notification id.
#[derive(Clone, Copy, PartialEq, Eq, Structural)]
pub enum Kind {
    Leaf,
    Composite { inner: u64 },
}

/// One tracked resource: its notification id, what it owns, and whether it
/// is still live.
#[derive(Clone, Copy, PartialEq, Eq, Structural)]
pub struct Entry {
    pub id: u64,
    pub kind: Kind,
    pub status: Status,
}

/// The notifications one release of `e` produces: the resource's own id,
/// then, for a composite, the id of the inner resource it owns.
pub open spec fn teardown_seq(e: Entry) -> Seq<u64> {
    match e.kind {
        Kind::Leaf => seq![e.id],
        Kind::Composite { inner } => seq![e.id, inner],
    }
}

/// Whether releasing `e` would produce a notification with id `d`.
pub open spec fn touches(e: Entry, d: u64) -> bool {
    teardown_seq(e).contains(d)
}

/// The notifications the scope-exit sweep produces for `e`: its teardown
/// notifications if it is still live, nothing if it was already released.
pub open spec fn sweep_emit(e: Entry) -> Seq<u64> {
    if e.status is Live {
        teardown_seq(e)
    } else {
        Seq::empty()
    }
}

/// The whole notification stream of the scope-exit sweep over `s`:
/// still-live entries, most recently constructed first.
pub open spec fn sweep_log(s: Seq<Entry>) -> Seq<u64>
    decreases s.len(),
{
    if s.len() == 0 {
        Seq::empty()
    } else {
        sweep_log(s.drop_first()) + sweep_emit(s.first())
    }
}

/// A composite entry does not own itself.
pub open spec fn entry_wf(e: Entry) -> bool {
    match e.kind {
        Kind::Leaf => true,
        Kind::Composite { inner } => e.id != inner,
    }
}

/// Distinct entries never notify under the same id, and no entry notifies
/// twice under one id: every id belongs to at most one resource.
pub open spec fn entries_wf(s: Seq<Entry>) -> bool {
    &&& forall|j: int| 0 <= j < s.len() ==> entry_wf(#[trigger] s[j])
    &&& forall|j: int, k: int, d: u64|
        0 <= j < s.len() && 0 <= k < s.len() && j != k && #[trigger] touches(s[j], d)
            ==> !#[trigger] touches(s[k], d)
}

/// A scope of tracked resources and the notification stream produced so far.
pub struct Tracker {
    pub entries: Vec<Entry>,
    pub log: Vec<u64>,
}

impl Tracker {
    /// No entry of this scope notifies under id `d`.
    pub open spec fn fresh(self, d: u64) -> bool {
        forall|j: int| 0 <= j < self.entries@.len() ==> !touches(#[trigger] self.entries@[j], d)
    }

    pub open spec fn wf(self) -> bool {
        entries_wf(self.entries@)
    }

    /// An empty scope: no resources, no notifications.
    pub fn new() -> (t: Tracker)
        ensures
            t.entries@ == Seq::<Entry>::empty(),
            t.log@ == Seq::<u64>::empty(),
            t.wf(),
    {
        Tracker { entries: Vec::new(), log: Vec::new() }
    }

    /// Register a plain owned resource. Always succeeds; produces no
    /// notification. The returned handle indexes the new entry.
    pub fn construct_leaf(&mut self, id: u64) -> (h: usize)
        requires
            old(self).wf(),
            old(self).fresh(id),
        ensures
            final(self).entries@ == old(self).entries@.push(
                (Entry { id, kind: Kind::Leaf, status: Status::Live }),
            ),
            final(self).log@ == old(self).log@,
            h == old(self).entries@.len(),
            final(self).wf(),
    {
        let h = self.entries.len();
        self.entries.push(Entry { id, kind: Kind::Leaf, status: Status::Live });
        proof {
            lemma_push_fresh_wf(old(self).entries@, self.entries@.last());
        }
        h
    }

    /// Register a composite resource owning one inner resource. Always
    /// succeeds; produces no notification. The returned handle indexes the
    /// new entry.
    pub fn construct_composite(&mut self, id: u64, inner: u64) -> (h: usize)
        requires
            old(self).wf(),
            old(self).fresh(id),
            old(self).fresh(inner),
            id != inner,
        ensures
            final(self).entries@ == old(self).entries@.push(
                (Entry { id, kind: Kind::Composite { inner }, status: Status::Live }),
            ),
            final(self).log@ == old(self).log@,
            h == old(self).entries@.len(),
            final(self).wf(),
    {
        let h = self.entries.len();
        self.entries.push(Entry { id, kind: Kind::Composite { inner }, status: Status::Live });
        proof {
            lemma_push_fresh_wf(old(self).entries@, self.entries@.last());
        }
        h
    }
    /// Release the resource behind handle `h` right now. Its teardown
    /// notifications — for a composite, the outer id strictly before the
    /// inner id — are appended to the log, synchronously and in full, before
    /// the call returns. The entry moves to `Released`, which suppresses the
    /// automatic scope-exit release; nothing else changes. Releasing an
    /// already-released resource is ruled out by the precondition.
    pub fn release_now(&mut self, h: usize)
        requires
            h < old(self).entries@.len(),
            old(self).entries@[h as int].status is Live,
        ensures
            final(self).log@ == old(self).log@ + teardown_seq(old(self).entries@[h as int]),
            final(self).entries@ == old(self).entries@.update(
                h as int,
                (Entry { status: Status::Released, ..old(self).entries@[h as int] }),
            ),
            old(self).wf() ==> final(self).wf(),
    {
        let e = self.entries[h];
        match e.kind {
            Kind::Leaf => {
                self.log.push(e.id);
            },
            Kind::Composite { inner } => {
                self.log.push(e.id);
                self.log.push(inner);
            },
        }
        self.entries[h].status = Status::Released;
        proof {
            assert(self.log@ =~= old(self).log@ + teardown_seq(e));
            if old(self).wf() {
                lemma_same_shape_wf(old(self).entries@, self.entries@);
            }
        }
    }

    /// End the scope: every still-live entry is released, most recently
    /// constructed first, and its teardown notifications — outer before
    /// inner — are appended to the log. Entries already released early are
    /// skipped, so no resource is ever notified twice. Afterwards every
    /// entry is `Released`.
    pub fn end_scope(&mut self)
        ensures
            final(self).log@ == old(self).log@ + sweep_log(old(self).entries@),
            final(self).entries@.len() == old(self).entries@.len(),
            forall|j: int| 0 <= j < old(self).entries@.len() ==> final(self).entries@[j]
                == (Entry { status: Status::Released, ..old(self).entries@[j] }),
            old(self).wf() ==> final(self).wf(),
    {
        let ghost s0 = self.entries@;
        let ghost l0 = self.log@;
        let n = self.entries.len();
        let mut i = n;
        while i > 0
            invariant
                i <= n,
                n == s0.len(),
                self.entries@.len() == n,
                self.log@ == l0 + sweep_log(s0.subrange(i as int, n as int)),
                forall|j: int| 0 <= j < i ==> self.entries@[j] == s0[j],
                forall|j: int| i <= j < n ==> self.entries@[j]
                    == (Entry { status: Status::Released, ..s0[j] }),
            decreases i,
        {
            i -= 1;
            let ghost pre = self.log@;
            let e = self.entries[i];
            match e.status {
                Status::Live => {
                    match e.kind {
                        Kind::Leaf => {
                            self.log.push(e.id);
                        },
                        Kind::Composite { inner } => {
                            self.log.push(e.id);
                            self.log.push(inner);
                        },
                    }
                    self.entries[i].status = Status::Released;
                },
                Status::Released => {
                },
            }
            proof {
                let tail = s0.subrange(i as int, n as int);
                assert(tail.first() == s0[i as int]);
                assert(tail.drop_first() =~= s0.subrange(i + 1, n as int));
                assert(self.log@ =~= pre + sweep_emit(s0[i as int]));
                assert(self.log@ =~= l0 + sweep_log(tail));
            }
        }
        proof {
            assert(s0.subrange(0, n as int) =~= s0);
            if old(self).wf() {
                lemma_same_shape_wf(old(self).entries@, self.entries@);
            }
        }
    }
}

/// Well-formedness depends only on ids and ownership, not on lifecycle
/// state: a sequence of entries with the same ids and kinds, entry by
/// entry, is well-formed whenever the first is.
proof fn lemma_same_shape_wf(s: Seq<Entry>, t: Seq<Entry>)
    requires
        entries_wf(s),
        s.len() == t.len(),
        forall|j: int| 0 <= j < s.len() ==> #[trigger] t[j].id == s[j].id && t[j].kind == s[j].kind,
    ensures
        entries_wf(t),
{
    assert forall|j: int| 0 <= j < t.len() implies entry_wf(#[trigger] t[j]) by {
        assert(entry_wf(s[j]));
    }
    assert forall|j: int, k: int, d: u64|
        0 <= j < t.len() && 0 <= k < t.len() && j != k && #[trigger] touches(t[j], d) implies !#[trigger] touches(
        t[k],
        d,
    ) by {
        assert(teardown_seq(t[j]) == teardown_seq(s[j]));
        assert(teardown_seq(t[k]) == teardown_seq(s[k]));
        assert(touches(s[j], d));
        assert(!touches(s[k], d));
    }
}

/// Pushing a well-formed entry none of whose notification ids is already
/// taken preserves well-formedness of the scope.
proof fn lemma_push_fresh_wf(s: Seq<Entry>, e: Entry)
    requires
        entries_wf(s),
        entry_wf(e),
        forall|j: int, d: u64| 0 <= j < s.len() && #[trigger] touches(s[j], d) ==> !touches(e, d),
    ensures
        entries_wf(s.push(e)),
{
    let t = s.push(e);
    assert forall|j: int, k: int, d: u64|
        0 <= j < t.len() && 0 <= k < t.len() && j != k && #[trigger] touches(t[j], d) implies !#[trigger] touches(
        t[k],
        d,
    ) by {
        if j < s.len() && k < s.len() {
            assert(t[j] == s[j]);
            assert(t[k] == s[k]);
        } else if j == s.len() {
            assert(t[k] == s[k]);
            assert(!touches(s[k], d));
        } else {
            assert(t[j] == s[j]);
        }
    }
}

} // verus!
