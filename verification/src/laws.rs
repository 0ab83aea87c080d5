//! The guarantees of the lifecycle manager, stated and proved once and for
//! all: every resource is notified exactly once, composites outer before
//! inner, siblings in reverse construction order.

use vstd::prelude::*;
use crate::scope::{Entry, entries_wf, entry_wf, sweep_emit, sweep_log, teardown_seq, touches};

verus! {

/// How many notifications with id `d` the stream `log` holds.
pub open spec fn count_id(log: Seq<u64>, d: u64) -> nat
    decreases log.len(),
{
    if log.len() == 0 {
        0
    } else {
        (if log.first() == d {
            1nat
        } else {
            0nat
        }) + count_id(log.drop_first(), d)
    }
}

/// Counting distributes over concatenation of notification streams.
proof fn lemma_count_concat(a: Seq<u64>, b: Seq<u64>, d: u64)
    ensures
        count_id(a + b, d) == count_id(a, d) + count_id(b, d),
    decreases a.len(),
{
    if a.len() == 0 {
        assert(a + b =~= b);
    } else {
        assert((a + b).first() == a.first());
        assert((a + b).drop_first() =~= a.drop_first() + b);
        lemma_count_concat(a.drop_first(), b, d);
    }
}

/// A stream that counts zero notifications under `d` holds none at all.
proof fn lemma_count_zero_means_absent(log: Seq<u64>, d: u64)
    requires
        count_id(log, d) == 0,
    ensures
        forall|p: int| 0 <= p < log.len() ==> log[p] != d,
    decreases log.len(),
{
    if log.len() > 0 {
        lemma_count_zero_means_absent(log.drop_first(), d);
        assert(forall|p: int| 1 <= p < log.len() ==> log[p] == log.drop_first()[p - 1]);
    }
}

/// One release of a well-formed entry notifies under `d` exactly once if
/// `d` is one of its ids, and never otherwise.
proof fn lemma_teardown_count(e: Entry, d: u64)
    requires
        entry_wf(e),
    ensures
        count_id(teardown_seq(e), d) == (if touches(e, d) {
            1nat
        } else {
            0nat
        }),
{
    reveal_with_fuel(count_id, 3);
    let t = teardown_seq(e);
    match e.kind {
        crate::scope::Kind::Leaf => {
            assert(t =~= seq![e.id]);
            assert(t.first() == e.id);
            assert(t.drop_first().len() == 0);
            assert(count_id(t, d) == (if e.id == d {
                1nat
            } else {
                0nat
            }));
            if e.id == d {
                assert(t[0] == d);
                assert(touches(e, d));
            } else {
                assert(forall|p: int| 0 <= p < t.len() ==> t[p] != d);
                assert(!touches(e, d));
            }
        },
        crate::scope::Kind::Composite { inner } => {
            assert(t =~= seq![e.id, inner]);
            assert(t.first() == e.id);
            assert(t.drop_first() =~= seq![inner]);
            assert(t.drop_first().first() == inner);
            assert(t.drop_first().drop_first().len() == 0);
            assert(count_id(t.drop_first(), d) == (if inner == d {
                1nat
            } else {
                0nat
            }));
            if e.id == d || inner == d {
                assert(t[0] == e.id && t[1] == inner);
                assert(touches(e, d));
            } else {
                assert(forall|p: int| 0 <= p < t.len() ==> t[p] != d);
                assert(!touches(e, d));
            }
        },
    }
}

/// Dropping the first entry of a well-formed scope leaves it well-formed.
proof fn lemma_entries_wf_drop_first(s: Seq<Entry>)
    requires
        entries_wf(s),
        s.len() > 0,
    ensures
        entries_wf(s.drop_first()),
{
    let t = s.drop_first();
    assert forall|j: int| 0 <= j < t.len() implies entry_wf(#[trigger] t[j]) by {
        assert(t[j] == s[j + 1]);
        assert(entry_wf(s[j + 1]));
    }
    assert forall|j: int, k: int, d: u64|
        0 <= j < t.len() && 0 <= k < t.len() && j != k && #[trigger] touches(t[j], d) implies !#[trigger] touches(
        t[k],
        d,
    ) by {
        assert(t[j] == s[j + 1]);
        assert(t[k] == s[k + 1]);
        assert(touches(s[j + 1], d));
        assert(!touches(s[k + 1], d));
    }
}

/// A sweep over entries none of which would notify under `d` while live
/// produces no notification under `d`.
proof fn lemma_sweep_count_zero(s: Seq<Entry>, d: u64)
    requires
        forall|j: int| 0 <= j < s.len() ==> !(#[trigger] s[j].status is Live && touches(s[j], d)),
        forall|j: int| 0 <= j < s.len() ==> entry_wf(#[trigger] s[j]),
    ensures
        count_id(sweep_log(s), d) == 0,
    decreases s.len(),
{
    if s.len() > 0 {
        assert(forall|j: int| 0 <= j < s.drop_first().len() ==> s.drop_first()[j] == s[j + 1]);
        lemma_sweep_count_zero(s.drop_first(), d);
        lemma_count_concat(sweep_log(s.drop_first()), sweep_emit(s.first()), d);
        if s.first().status is Live {
            lemma_teardown_count(s.first(), d);
        } else {
            assert(count_id(sweep_emit(s.first()), d) == 0);
        }
    }
}

/// A sweep over a well-formed scope whose entry `k` is live notifies under
/// each of that entry's ids exactly once.
proof fn lemma_sweep_count_live(s: Seq<Entry>, k: int, d: u64)
    requires
        entries_wf(s),
        0 <= k < s.len(),
        s[k].status is Live,
        touches(s[k], d),
    ensures
        count_id(sweep_log(s), d) == 1,
    decreases s.len(),
{
    lemma_count_concat(sweep_log(s.drop_first()), sweep_emit(s.first()), d);
    lemma_entries_wf_drop_first(s);
    assert(forall|j: int| 0 <= j < s.drop_first().len() ==> s.drop_first()[j] == s[j + 1]);
    if k == 0 {
        lemma_teardown_count(s.first(), d);
        assert forall|j: int| 0 <= j < s.drop_first().len() implies !(#[trigger] s.drop_first()[j].status is Live
            && touches(s.drop_first()[j], d)) by {
            assert(!touches(s[j + 1], d));
        }
        lemma_sweep_count_zero(s.drop_first(), d);
    } else {
        lemma_sweep_count_live(s.drop_first(), k - 1, d);
        assert(!touches(s[0], d));
        if s.first().status is Live {
            lemma_teardown_count(s.first(), d);
        } else {
            assert(count_id(sweep_emit(s.first()), d) == 0);
        }
    }
}

/// A resource released early is done: the explicit release already produced
/// its one notification per id, and the scope-exit sweep produces none for
/// it.
pub proof fn lemma_early_release_exactly_once(s: Seq<Entry>, k: int, d: u64)
    requires
        entries_wf(s),
        0 <= k < s.len(),
        s[k].status is Released,
        touches(s[k], d),
    ensures
        count_id(teardown_seq(s[k]), d) == 1,
        count_id(sweep_log(s), d) == 0,
{
    lemma_teardown_count(s[k], d);
    assert forall|j: int| 0 <= j < s.len() implies !(#[trigger] s[j].status is Live && touches(
        s[j],
        d,
    )) by {
        if j != k {
            assert(!touches(s[j], d));
        }
    }
    lemma_sweep_count_zero(s, d);
}

/// A resource not released early is notified exactly once by the
/// scope-exit sweep, under each of its ids.
pub proof fn lemma_scope_exit_exactly_once(s: Seq<Entry>, k: int, d: u64)
    requires
        entries_wf(s),
        0 <= k < s.len(),
        s[k].status is Live,
        touches(s[k], d),
    ensures
        count_id(sweep_log(s), d) == 1,
{
    lemma_sweep_count_live(s, k, d);
}

/// The sweep splits at any boundary `m`: entries from `m` on are swept
/// first (they were constructed later), then the entries before `m`.
proof fn lemma_sweep_split(s: Seq<Entry>, m: int)
    requires
        0 <= m <= s.len(),
    ensures
        sweep_log(s) == sweep_log(s.subrange(m, s.len() as int)) + sweep_log(s.subrange(0, m)),
    decreases s.len(),
{
    if m == 0 {
        assert(s.subrange(0, s.len() as int) =~= s);
        assert(s.subrange(0, 0).len() == 0);
        assert(sweep_log(s) + sweep_log(s.subrange(0, 0)) =~= sweep_log(s));
    } else {
        let sd = s.drop_first();
        lemma_sweep_split(sd, m - 1);
        assert(sd.subrange(m - 1, sd.len() as int) =~= s.subrange(m, s.len() as int));
        assert(sd.subrange(0, m - 1) =~= s.subrange(1, m));
        let front = s.subrange(0, m);
        assert(front.first() == s.first());
        assert(front.drop_first() =~= s.subrange(1, m));
        assert(sweep_log(front) == sweep_log(s.subrange(1, m)) + sweep_emit(s.first()));
        assert(sweep_log(s) =~= sweep_log(s.subrange(m, s.len() as int)) + sweep_log(front));
    }
}

/// The sweep of a single live entry is exactly its teardown notifications.
proof fn lemma_sweep_singleton(s: Seq<Entry>)
    requires
        s.len() == 1,
    ensures
        sweep_log(s) == sweep_emit(s[0]),
{
    assert(s.drop_first().len() == 0);
    assert(sweep_log(s.drop_first()).len() == 0);
    assert(sweep_log(s) =~= sweep_emit(s[0]));
}

/// Entries of a subrange of a well-formed scope are well-formed and, apart
/// from the one at position `k` of the whole scope, notify under none of
/// the ids of entry `k`.
proof fn lemma_subrange_avoids(s: Seq<Entry>, a: int, b: int, k: int, d: u64)
    requires
        entries_wf(s),
        0 <= a <= b <= s.len(),
        0 <= k < s.len(),
        touches(s[k], d),
        !(a <= k < b),
    ensures
        count_id(sweep_log(s.subrange(a, b)), d) == 0,
{
    let t = s.subrange(a, b);
    assert forall|j: int| 0 <= j < t.len() implies !(#[trigger] t[j].status is Live && touches(
        t[j],
        d,
    )) && entry_wf(t[j]) by {
        assert(t[j] == s[j + a]);
        assert(j + a != k);
        assert(!touches(s[j + a], d));
        assert(entry_wf(s[j + a]));
    }
    lemma_sweep_count_zero(t, d);
}

/// Teardown of a composite is outer-before-inner at scope exit too: when
/// the sweep releases a live composite with outer id `c` owning inner id
/// `inr`, the notification for `c` stands strictly before the one for
/// `inr` in the sweep's stream.
pub proof fn lemma_outer_before_inner(s: Seq<Entry>, k: int, c: u64, inr: u64)
    requires
        entries_wf(s),
        0 <= k < s.len(),
        s[k].status is Live,
        s[k].id == c,
        s[k].kind == (crate::scope::Kind::Composite { inner: inr }),
    ensures
        exists|p: int, q: int|
            0 <= p < q < sweep_log(s).len() && sweep_log(s)[p] == c && sweep_log(s)[q] == inr,
{
    let n = s.len() as int;
    lemma_sweep_split(s, k + 1);
    lemma_sweep_split(s.subrange(0, k + 1), k);
    let rear = s.subrange(k + 1, n);
    let front = s.subrange(0, k + 1);
    assert(front.subrange(k, k + 1) =~= s.subrange(k, k + 1));
    assert(front.subrange(0, k) =~= s.subrange(0, k));
    let one = s.subrange(k, k + 1);
    lemma_sweep_singleton(one);
    assert(one[0] == s[k]);
    assert(sweep_emit(s[k]) =~= seq![c, inr]);
    let a = sweep_log(rear);
    let b = sweep_log(s.subrange(0, k));
    assert(sweep_log(s) =~= a + (seq![c, inr] + b));
    let p = a.len() as int;
    let q = p + 1;
    assert(sweep_log(s)[p] == c);
    assert(sweep_log(s)[q] == inr);
    assert(0 <= p < q < sweep_log(s).len());
}

/// Siblings are swept in reverse construction order: every notification of
/// the later-constructed entry `k` stands strictly before every
/// notification of the earlier entry `j` in the sweep's stream.
pub proof fn lemma_sweep_reverse_order(s: Seq<Entry>, j: int, k: int, dj: u64, dk: u64)
    requires
        entries_wf(s),
        0 <= j < k < s.len(),
        touches(s[j], dj),
        touches(s[k], dk),
    ensures
        forall|p: int, q: int|
            0 <= p < sweep_log(s).len() && 0 <= q < sweep_log(s).len() && sweep_log(s)[p] == dk
                && sweep_log(s)[q] == dj ==> p < q,
{
    let n = s.len() as int;
    lemma_sweep_split(s, k + 1);
    lemma_sweep_split(s.subrange(0, k + 1), j + 1);
    assert(s.subrange(0, k + 1).subrange(j + 1, k + 1) =~= s.subrange(j + 1, k + 1));
    assert(s.subrange(0, k + 1).subrange(0, j + 1) =~= s.subrange(0, j + 1));
    let a = sweep_log(s.subrange(k + 1, n));
    let m = sweep_log(s.subrange(j + 1, k + 1));
    let c = sweep_log(s.subrange(0, j + 1));
    assert(sweep_log(s) =~= a + (m + c));
    lemma_subrange_avoids(s, k + 1, n, k, dk);
    lemma_subrange_avoids(s, 0, j + 1, k, dk);
    lemma_subrange_avoids(s, k + 1, n, j, dj);
    lemma_subrange_avoids(s, j + 1, k + 1, j, dj);
    lemma_count_zero_means_absent(a, dk);
    lemma_count_zero_means_absent(c, dk);
    lemma_count_zero_means_absent(a, dj);
    lemma_count_zero_means_absent(m, dj);
    assert forall|p: int, q: int|
        0 <= p < sweep_log(s).len() && 0 <= q < sweep_log(s).len() && sweep_log(s)[p] == dk
            && sweep_log(s)[q] == dj implies p < q by {
        let w = a + (m + c);
        assert(w[p] == dk);
        assert(w[q] == dj);
        if p < a.len() {
            assert(a[p] == dk);
            assert(false);
        }
        if p >= a.len() + m.len() {
            assert(c[p - a.len() - m.len()] == dk);
            assert(false);
        }
        if q < a.len() {
            assert(a[q] == dj);
            assert(false);
        }
        if a.len() <= q < a.len() + m.len() {
            assert(m[q - a.len()] == dj);
            assert(false);
        }
    }
}

} // verus!
