//! Telling our own saves apart from someone else's edit.
//!
//! A file watcher reports that the file changed, not who changed it. The
//! file is judged by the hash of its contents: the hash we last read or
//! wrote means nothing changed; the hash of one of our recent saves means a
//! late event for our own write (consumed, so it explains one event only);
//! anything else is an external edit, which the user is asked about. Only
//! the last few saves, from the last half minute, are remembered.

use vstd::prelude::*;
use crate::fidelity::{blake3_digest, blake3_hash};

verus! {

/// How long a save keeps explaining change events, in milliseconds.
pub const EPOCH_LIFETIME_MS: u64 = 30000;

/// How many recent saves are remembered.
pub const EPOCHS: usize = 8;

/// What a change event turned out to be.
#[derive(Debug, Clone, Copy, PartialEq, Eq, Structural)]
pub enum Verdict {
    /// The contents are what we last read or wrote.
    Unchanged,
    /// The contents are one of our own recent saves.
    OurOwnWrite,
    /// Someone else changed the file.
    External,
    /// The file is no longer there.
    Gone,
}

/// One of our saves: the hash written, and when, in milliseconds on a
/// monotonic clock.
#[derive(Debug, Clone, Copy)]
struct Epoch {
    hash: [u8; 32],
    at: u64,
}

/// A watched file.
#[derive(Debug)]
pub struct Watched {
    known: [u8; 32],
    epochs: Vec<Epoch>,
}

/// A watched file as contracts speak of it: the hash believed to be on
/// disk, and the recent saves, oldest first.
pub struct WatchView {
    pub known: Seq<u8>,
    pub epochs: Seq<(Seq<u8>, u64)>,
}

/// The recent saves as hashes and times.
spec fn epoch_views(es: Seq<Epoch>) -> Seq<(Seq<u8>, u64)> {
    es.map_values(|e: Epoch| (e.hash@, e.at))
}

impl View for Watched {
    type V = WatchView;

    closed spec fn view(&self) -> WatchView {
        WatchView { known: self.known@, epochs: epoch_views(self.epochs@) }
    }
}

/// The saves that still explain events at `now`: those less than the
/// lifetime old (a save stamped after `now` counts as just made).
pub open spec fn fresh(es: Seq<(Seq<u8>, u64)>, now: u64) -> Seq<(Seq<u8>, u64)>
    decreases es.len(),
{
    if es.len() == 0 {
        Seq::empty()
    } else {
        let rest = fresh(es.drop_last(), now);
        if (if now >= es.last().1 { now - es.last().1 } else { 0 }) < EPOCH_LIFETIME_MS {
            rest.push(es.last())
        } else {
            rest
        }
    }
}

/// The first save of hash `h`, if any.
pub open spec fn first_with(es: Seq<(Seq<u8>, u64)>, h: Seq<u8>, i: int) -> Option<int>
    decreases es.len() - i,
{
    if i < 0 || i >= es.len() {
        None
    } else if es[i].0 == h {
        Some(i)
    } else {
        first_with(es, h, i + 1)
    }
}

/// The saves remembered after one more: the oldest is forgotten once
/// there are more than `EPOCHS`.
pub open spec fn remember(es: Seq<(Seq<u8>, u64)>, e: (Seq<u8>, u64)) -> Seq<(Seq<u8>, u64)> {
    let all = es.push(e);
    if all.len() > EPOCHS {
        all.drop_first()
    } else {
        all
    }
}

/// How contents with hash `h` are judged at `now`, and what is believed
/// afterwards.
pub open spec fn judgement(w: WatchView, h: Seq<u8>, now: u64) -> (Verdict, WatchView) {
    if h == w.known {
        (Verdict::Unchanged, w)
    } else {
        let live = fresh(w.epochs, now);
        match first_with(live, h, 0) {
            Some(k) => (Verdict::OurOwnWrite, WatchView { known: h, epochs: live.remove(k) }),
            None => (Verdict::External, WatchView { known: h, epochs: live }),
        }
    }
}

/// Whether two hashes are the same.
fn same_hash(a: &[u8; 32], b: &[u8; 32]) -> (r: bool)
    ensures
        r == (a@ == b@),
{
    let mut i: usize = 0;
    while i < 32
        invariant
            i <= 32,
            a@.len() == 32 && b@.len() == 32,
            forall|j: int| 0 <= j < i ==> a@[j] == b@[j],
        decreases 32 - i,
    {
        if a[i] != b[i] {
            return false;
        }
        i += 1;
    }
    assert(a@ =~= b@);
    true
}

impl Watched {
    /// A file just read, with this hash.
    pub fn new(known: [u8; 32]) -> (w: Self)
        ensures
            w@.known == known@,
            w@.epochs.len() == 0,
    {
        let w = Watched { known, epochs: Vec::new() };
        assert(epoch_views(w.epochs@) =~= Seq::<(Seq<u8>, u64)>::empty());
        w
    }

    /// We wrote contents with this hash at `now`.
    pub fn wrote(&mut self, hash: [u8; 32], now: u64)
        ensures
            final(self)@.known == hash@,
            final(self)@.epochs == remember(old(self)@.epochs, (hash@, now)),
    {
        let ghost before = epoch_views(self.epochs@);
        self.known = hash;
        self.epochs.push(Epoch { hash, at: now });
        assert(epoch_views(self.epochs@) =~= before.push((hash@, now)));
        if self.epochs.len() > EPOCHS {
            let ghost all = epoch_views(self.epochs@);
            self.epochs.remove(0);
            assert(epoch_views(self.epochs@) =~= all.drop_first());
        }
    }

    /// We read contents with this hash.
    pub fn read(&mut self, hash: [u8; 32])
        ensures
            final(self)@.known == hash@,
            final(self)@.epochs == old(self)@.epochs,
    {
        self.known = hash;
    }

    /// Judges the file's contents at `now` (`None` when it is gone), and
    /// believes what it found.
    pub fn judge(&mut self, bytes: Option<&[u8]>, now: u64) -> (v: Verdict)
        ensures
            match bytes {
                None => v == Verdict::Gone && final(self)@ == old(self)@,
                Some(b) => (v, final(self)@) == judgement(old(self)@, blake3_digest(b@), now),
            },
    {
        let bytes = match bytes {
            Some(b) => b,
            None => {
                return Verdict::Gone;
            },
        };
        let hash = blake3_hash(bytes);
        if same_hash(&hash, &self.known) {
            return Verdict::Unchanged;
        }
        let ghost es = epoch_views(self.epochs@);
        let mut live: Vec<Epoch> = Vec::new();
        let mut i: usize = 0;
        assert(epoch_views(live@) =~= Seq::<(Seq<u8>, u64)>::empty());
        while i < self.epochs.len()
            invariant
                i <= self.epochs@.len(),
                es == epoch_views(self.epochs@),
                epoch_views(live@) == fresh(es.take(i as int), now),
            decreases self.epochs.len() - i,
        {
            let e = self.epochs[i];
            let age = now.saturating_sub(e.at);
            proof {
                let t = es.take(i + 1);
                assert(t.drop_last() =~= es.take(i as int));
                assert(t.last() == (e.hash@, e.at));
            }
            if age < EPOCH_LIFETIME_MS {
                let ghost before = epoch_views(live@);
                live.push(e);
                assert(epoch_views(live@) =~= before.push((e.hash@, e.at)));
            }
            i += 1;
        }
        assert(es.take(self.epochs@.len() as int) =~= es);
        let ghost lv = epoch_views(live@);
        let mut k: usize = 0;
        while k < live.len() && !same_hash(&live[k].hash, &hash)
            invariant
                k <= live@.len(),
                lv == epoch_views(live@),
                first_with(lv, hash@, 0) == first_with(lv, hash@, k as int),
            decreases live.len() - k,
        {
            k += 1;
        }
        self.known = hash;
        if k < live.len() {
            live.remove(k);
            assert(epoch_views(live@) =~= lv.remove(k as int));
            self.epochs = live;
            Verdict::OurOwnWrite
        } else {
            self.epochs = live;
            Verdict::External
        }
    }
}

/// The change reported for a verdict; the quiet verdicts report none.
pub open spec fn change_kind(verdict: Verdict) -> Option<Seq<char>> {
    match verdict {
        Verdict::Unchanged => None,
        Verdict::OurOwnWrite => None,
        Verdict::External => Some("external"@),
        Verdict::Gone => Some("gone"@),
    }
}

impl Watched {
    /// Answers a change event about the watched file, whose contents are
    /// now `bytes` (`None` when it is gone): judges them, and says what to
    /// tell the interface, if anything.
    pub fn event(&mut self, bytes: Option<&[u8]>, now: u64) -> (r: Option<&'static str>)
        ensures
            match bytes {
                None => final(self)@ == old(self)@ && (r matches Some(k) && k@ == "gone"@),
                Some(b) => final(self)@ == judgement(old(self)@, blake3_digest(b@), now).1
                    && match change_kind(judgement(old(self)@, blake3_digest(b@), now).0) {
                        Some(k) => (r matches Some(t) && t@ == k),
                        None => r is None,
                    },
            },
    {
        let verdict = self.judge(bytes, now);
        proof {
            reveal_strlit("external");
            reveal_strlit("gone");
        }
        match verdict {
            Verdict::Unchanged => None,
            Verdict::OurOwnWrite => None,
            Verdict::External => Some("external"),
            Verdict::Gone => Some("gone"),
        }
    }
}

/// How many remembered saves wrote hash `h`.
pub open spec fn saves_of(es: Seq<(Seq<u8>, u64)>, h: Seq<u8>) -> nat
    decreases es.len(),
{
    if es.len() == 0 {
        0
    } else {
        saves_of(es.drop_last(), h) + if es.last().0 == h { 1nat } else { 0nat }
    }
}

/// Dropping the stale saves keeps an order-preserving part of the list.
proof fn lemma_fresh_len(es: Seq<(Seq<u8>, u64)>, now: u64)
    ensures
        fresh(es, now).len() <= es.len(),
    decreases es.len(),
{
    if es.len() > 0 {
        lemma_fresh_len(es.drop_last(), now);
    }
}

/// The last fresh save of a list whose last save is fresh is that save.
proof fn lemma_fresh_last(es: Seq<(Seq<u8>, u64)>, now: u64)
    requires
        es.len() > 0,
        (if now >= es.last().1 { now - es.last().1 } else { 0 }) < EPOCH_LIFETIME_MS,
    ensures
        fresh(es, now).len() > 0,
        fresh(es, now).last() == es.last(),
{
}

/// `first_with` finds a hash that occurs at or after where it starts.
proof fn lemma_first_with_found(es: Seq<(Seq<u8>, u64)>, h: Seq<u8>, i: int, j: int)
    requires
        0 <= i <= j < es.len(),
        es[j].0 == h,
    ensures
        first_with(es, h, i) matches Some(k) && i <= k <= j && es[k].0 == h
            && forall|m: int| i <= m < k ==> es[m].0 != h,
    decreases j - i,
{
    if es[i].0 != h {
        lemma_first_with_found(es, h, i + 1, j);
    }
}

/// What `first_with` returns is an index holding the hash, the first one.
proof fn lemma_first_with_some(es: Seq<(Seq<u8>, u64)>, h: Seq<u8>, i: int)
    requires
        0 <= i,
        first_with(es, h, i) is Some,
    ensures
        first_with(es, h, i) matches Some(k) && i <= k < es.len() && es[k].0 == h
            && forall|m: int| i <= m < k ==> es[m].0 != h,
    decreases es.len() - i,
{
    if i < es.len() && es[i].0 != h {
        lemma_first_with_some(es, h, i + 1);
    }
}

/// Counting saves over a removal.
proof fn lemma_saves_remove(es: Seq<(Seq<u8>, u64)>, h: Seq<u8>, k: int)
    requires
        0 <= k < es.len(),
    ensures
        saves_of(es, h) == saves_of(es.remove(k), h) + if es[k].0 == h { 1nat } else { 0nat },
    decreases es.len(),
{
    if k < es.len() - 1 {
        let r = es.remove(k);
        assert(r.drop_last() =~= es.drop_last().remove(k));
        assert(r.last() == es.last());
        lemma_saves_remove(es.drop_last(), h, k);
    } else {
        assert(es.remove(k) =~= es.drop_last());
    }
}

/// Only the last `EPOCHS` saves are remembered: remembering one more, or
/// judging an event, never leaves more than that.
pub proof fn few_saves_are_remembered(w: WatchView, e: (Seq<u8>, u64), h: Seq<u8>, now: u64)
    requires
        w.epochs.len() <= EPOCHS,
    ensures
        remember(w.epochs, e).len() <= EPOCHS,
        judgement(w, h, now).1.epochs.len() <= EPOCHS,
{
    lemma_fresh_len(w.epochs, now);
    if first_with(fresh(w.epochs, now), h, 0) is Some {
        lemma_first_with_some(fresh(w.epochs, now), h, 0);
    }
}

/// Our own save never prompts: right after writing contents, an event
/// showing those contents is no change at all.
pub proof fn our_own_save_is_unchanged(w: WatchView, h: Seq<u8>, t: u64, now: u64)
    ensures
        judgement(WatchView { known: h, epochs: remember(w.epochs, (h, t)) }, h, now).0 == Verdict::Unchanged,
{
}

/// A save explains an event showing its contents for as long as it is
/// fresh, even when something else was read in between.
pub proof fn a_recent_save_explains_its_event(w: WatchView, h: Seq<u8>, t: u64, x: Seq<u8>, now: u64)
    requires
        x != h,
        t <= now,
        now - t < EPOCH_LIFETIME_MS,
    ensures
        judgement(WatchView { known: x, epochs: remember(w.epochs, (h, t)) }, h, now).0 == Verdict::OurOwnWrite,
{
    let es = remember(w.epochs, (h, t));
    assert(es.len() > 0 && es.last() == (h, t)) by {
        let all = w.epochs.push((h, t));
        if all.len() > EPOCHS {
            assert(all.drop_first().last() == all.last());
        }
    }
    lemma_fresh_last(es, now);
    let live = fresh(es, now);
    lemma_first_with_found(live, h, 0, live.len() - 1);
}

/// An event is explained by one save only: judging it our own write uses
/// up exactly one remembered save of those contents, so the same contents
/// appearing again must be explained by another save or be a real change.
pub proof fn an_explained_event_consumes_one_save(w: WatchView, h: Seq<u8>, now: u64)
    requires
        judgement(w, h, now).0 == Verdict::OurOwnWrite,
    ensures
        saves_of(judgement(w, h, now).1.epochs, h) + 1 == saves_of(fresh(w.epochs, now), h),
{
    let live = fresh(w.epochs, now);
    lemma_first_with_some(live, h, 0);
    let k = first_with(live, h, 0)->0;
    lemma_saves_remove(live, h, k);
}

} // verus!
