//! Where crash-recovery snapshots are filed, and which are kept.
//!
//! Each document's snapshots live in a directory named by a short hash of
//! its canonical path; a document never saved is filed under its session.
//! Each snapshot (a "generation") is named by the millisecond it was taken.
//! The newest few are kept, and a document whose newest snapshot is a month
//! old is forgotten. A snapshot from the future is not old: clocks move
//! backwards, and deleting unsaved work over it would be the worst reading.

use vstd::prelude::*;
use vstd::string::StringSliceAdditionalSpecFns;
use crate::fidelity::{blake3_digest, blake3_hash};
use crate::fmt::{decimal, push_char, push_decimal, push_str};
use crate::text::chars_of;

verus! {

/// How many generations a document keeps.
pub const KEEP: usize = 3;

/// How long, in milliseconds, before an untouched document's snapshots are
/// forgotten: thirty days.
pub const PRUNE_AFTER_MS: u64 = 2592000000;

/// The name a document is filed under: its canonical path where that could
/// be resolved, the path as written where it could not (a disconnected
/// share, a file deleted while open), and `unsaved-` and its session id for
/// a document that was never saved.
pub fn key(path: Option<&str>, canonical: Option<&str>, id: u64) -> (k: String)
    ensures
        k@ == match path {
            Some(p) => match canonical {
                Some(c) => c@,
                None => p@,
            },
            None => "unsaved-"@ + decimal(id as nat),
        },
{
    match path {
        Some(p) => match canonical {
            Some(c) => c.to_owned(),
            None => p.to_owned(),
        },
        None => {
            let mut k = String::new();
            push_str(&mut k, "unsaved-");
            push_decimal(&mut k, id);
            assert(Seq::<char>::empty() + "unsaved-"@ == "unsaved-"@);
            k
        },
    }
}

/// Whether a generation taken at `taken_at` is more than `age` old at
/// `now`, all in milliseconds; one from the future is not.
pub fn older_than(taken_at: u64, now: u64, age: u64) -> (b: bool)
    ensures
        b == (now > taken_at && now - taken_at > age),
{
    now.saturating_sub(taken_at) > age
}

/// A lower-case hex digit.
pub open spec fn nibble(d: u8) -> char {
    if d < 10 {
        ((d + 48) as u8) as char
    } else {
        ((d + 87) as u8) as char
    }
}

/// Bytes as lower-case hex, two digits each, high digit first.
pub open spec fn hex_of(b: Seq<u8>) -> Seq<char>
    decreases b.len(),
{
    if b.len() == 0 {
        Seq::empty()
    } else {
        hex_of(b.drop_last()) + seq![nibble(b.last() / 16), nibble(b.last() % 16)]
    }
}

fn nibble_char(d: u8) -> (c: char)
    requires
        d < 16,
    ensures
        c == nibble(d),
{
    if d < 10 {
        (d + 48) as char
    } else {
        (d + 87) as char
    }
}

/// The directory name for a document's snapshots: the first sixteen hex
/// digits of the BLAKE3 hash of its canonical path. A stable name, not a
/// security boundary.
pub fn directory_name(canonical: &str) -> (name: String)
    ensures
        name@ == hex_of(blake3_digest(canonical.spec_bytes()).take(8)),
{
    let hash = blake3_hash(canonical.as_bytes());
    let ghost h = hash@;
    let mut name = String::new();
    let mut i: usize = 0;
    assert(h.take(0) =~= Seq::<u8>::empty());
    while i < 8
        invariant
            i <= 8,
            h == hash@,
            h.len() == 32,
            name@ == hex_of(h.take(i as int)),
        decreases 8 - i,
    {
        let b = hash[i];
        push_char(&mut name, nibble_char(b / 16));
        push_char(&mut name, nibble_char(b % 16));
        proof {
            let t = h.take(i + 1);
            assert(t.drop_last() =~= h.take(i as int));
            assert(t.last() == b);
        }
        i += 1;
    }
    name
}

/// What `u64::from_str` gives for a name: an optional `+`, then one or more
/// ASCII digits whose value fits.
pub open spec fn generation_of(cs: Seq<char>) -> Option<u64> {
    if unsigned(cs).len() > 0 && decimal_digits(unsigned(cs)) && digit_value(unsigned(cs)) <= u64::MAX {
        Some(digit_value(unsigned(cs)) as u64)
    } else {
        None
    }
}

/// A name without its optional `+` sign.
pub open spec fn unsigned(cs: Seq<char>) -> Seq<char> {
    if cs.len() > 0 && cs[0] == '+' {
        cs.drop_first()
    } else {
        cs
    }
}

/// Whether every character is an ASCII digit.
pub open spec fn decimal_digits(ds: Seq<char>) -> bool {
    forall|j: int| 0 <= j < ds.len() ==> '0' <= #[trigger] ds[j] && ds[j] <= '9'
}

/// The value of a run of ASCII digits.
pub open spec fn digit_value(ds: Seq<char>) -> nat
    decreases ds.len(),
{
    if ds.len() == 0 {
        0
    } else {
        digit_value(ds.drop_last()) * 10 + ((ds.last() as u32) - 48) as nat
    }
}

/// Reads a generation's name.
pub fn parse_generation(name: &str) -> (r: Option<u64>)
    ensures
        r == generation_of(name@),
{
    let cs = chars_of(name);
    let start: usize = if cs.len() > 0 && cs[0] == '+' { 1 } else { 0 };
    let ghost digits = unsigned(cs@);
    assert(digits =~= cs@.subrange(start as int, cs@.len() as int));
    if start == cs.len() {
        return None;
    }
    let mut value: u64 = 0;
    let mut i = start;
    while i < cs.len()
        invariant
            start <= i <= cs@.len(),
            cs@ == name@,
            digits == unsigned(cs@),
            digits == cs@.subrange(start as int, cs@.len() as int),
            forall|j: int| start <= j < i ==> '0' <= #[trigger] cs@[j] && cs@[j] <= '9',
            value == digit_value(cs@.subrange(start as int, i as int)),
        decreases cs.len() - i,
    {
        let c = cs[i];
        assert(digits[i - start] == c);
        if !('0' <= c && c <= '9') {
            assert(!('0' <= digits[i - start] && digits[i - start] <= '9'));
            assert(!decimal_digits(digits));
            return None;
        }
        let d = (c as u32 - 48) as u64;
        proof {
            let t = cs@.subrange(start as int, i + 1);
            assert(t.drop_last() =~= cs@.subrange(start as int, i as int));
            assert(t.last() == c);
        }
        if value > (u64::MAX - d) / 10 {
            proof {
                assert(digit_value(cs@.subrange(start as int, i + 1)) > u64::MAX) by (nonlinear_arith)
                    requires
                        digit_value(cs@.subrange(start as int, i + 1)) == value * 10 + d,
                        value > (u64::MAX - d) / 10,
                        d <= 9;
                assert(digits.take(i + 1 - start) =~= cs@.subrange(start as int, i + 1));
                if decimal_digits(digits) {
                    lemma_digit_value_grows(digits, i + 1 - start);
                }
            }
            return None;
        }
        value = value * 10 + d;
        i += 1;
    }
    assert(cs@.subrange(start as int, i as int) =~= digits);
    Some(value)
}

/// A run of digits is worth at least any of its prefixes.
proof fn lemma_digit_value_grows(ds: Seq<char>, k: int)
    requires
        0 <= k <= ds.len(),
        forall|j: int| 0 <= j < ds.len() ==> '0' <= #[trigger] ds[j] && ds[j] <= '9',
    ensures
        digit_value(ds.take(k)) <= digit_value(ds),
    decreases ds.len() - k,
{
    if k < ds.len() {
        lemma_digit_value_grows(ds, k + 1);
        let t = ds.take(k + 1);
        assert(t.drop_last() =~= ds.take(k));
        assert(t.last() == ds[k]);
    } else {
        assert(ds.take(k) =~= ds);
    }
}

/// The newest of the generations named, if any name is one.
pub open spec fn newest_of(names: Seq<Seq<char>>) -> Option<u64>
    decreases names.len(),
{
    if names.len() == 0 {
        None
    } else {
        let rest = newest_of(names.drop_last());
        match (generation_of(names.last()), rest) {
            (Some(g), Some(r)) => Some(if g > r { g } else { r }),
            (Some(g), None) => Some(g),
            (None, r) => r,
        }
    }
}

/// Whether a snapshot directory whose entries are named `names` is to be
/// forgotten at `now`: it holds no generation, or its newest is older than
/// `PRUNE_AFTER_MS`. One taken after `now` is not old.
pub open spec fn stale_at(names: Seq<Seq<char>>, now: u64) -> bool {
    match newest_of(names) {
        Some(t) => now > t && now - t > PRUNE_AFTER_MS,
        None => true,
    }
}

/// Which of the snapshot directories to remove at `now`, given each one's
/// listing: `None` where it could not be listed, which counts as holding no
/// generation.
pub fn to_prune(listings: &Vec<Option<Vec<String>>>, now: u64) -> (r: Vec<bool>)
    ensures
        r@.len() == listings@.len(),
        forall|k: int| 0 <= k < r@.len() ==> r@[k] == match listings@[k] {
            Some(names) => stale_at(names@.map_values(|s: String| s@), now),
            None => true,
        },
{
    let mut out: Vec<bool> = Vec::new();
    let mut i: usize = 0;
    while i < listings.len()
        invariant
            i <= listings@.len(),
            out@.len() == i,
            forall|k: int| 0 <= k < i ==> out@[k] == match listings@[k] {
                Some(names) => stale_at(names@.map_values(|s: String| s@), now),
                None => true,
            },
        decreases listings.len() - i,
    {
        let stale = match &listings[i] {
            Some(names) => is_stale(names, now),
            None => true,
        };
        out.push(stale);
        i += 1;
    }
    out
}

/// Whether a document's snapshot directory is to be forgotten at `now`.
pub fn is_stale(names: &Vec<String>, now: u64) -> (b: bool)
    ensures
        b == stale_at(names@.map_values(|s: String| s@), now),
{
    let ghost all = names@.map_values(|s: String| s@);
    let mut newest: Option<u64> = None;
    let mut i: usize = 0;
    assert(all.take(0) =~= Seq::<Seq<char>>::empty());
    while i < names.len()
        invariant
            i <= names@.len(),
            all == names@.map_values(|s: String| s@),
            newest == newest_of(all.take(i as int)),
        decreases names.len() - i,
    {
        let g = parse_generation(names[i].as_str());
        proof {
            let t = all.take(i + 1);
            assert(t.drop_last() =~= all.take(i as int));
            assert(t.last() == names@[i as int]@);
        }
        newest = match (g, newest) {
            (Some(g), Some(r)) => Some(if g > r { g } else { r }),
            (Some(g), None) => Some(g),
            (None, r) => r,
        };
        i += 1;
    }
    assert(all.take(names@.len() as int) =~= all);
    match newest {
        Some(t) => older_than(t, now, PRUNE_AFTER_MS),
        None => true,
    }
}

/// Whether entry `k` is a generation beyond the newest `keep`.
pub open spec fn dropped(names: Seq<String>, keep: usize, k: int) -> bool {
    let gs = names.map_values(|s: String| generation_of(s@));
    gs[k] is Some && newer_count(gs, k) >= keep
}

/// Which of the named directory entries are generations beyond the newest
/// `keep`: their indexes, in the order the entries are listed. Entries that
/// are not generations are left alone. Among generations with the same
/// number, the one listed first is kept first.
pub fn to_drop(names: &Vec<String>, keep: usize) -> (r: Vec<usize>)
    ensures
        forall|j: int| 0 <= j < r@.len() ==> (#[trigger] r@[j] as int) < names@.len(),
        forall|j: int, k: int| 0 <= j < k < r@.len() ==> r@[j] < r@[k],
        forall|k: usize| k < names@.len() ==> (#[trigger] r@.contains(k) <==> dropped(names@, keep, k as int)),
{
    let ghost gs = names@.map_values(|s: String| generation_of(s@));
    let n = names.len();
    let mut parsed: Vec<Option<u64>> = Vec::new();
    let mut i: usize = 0;
    while i < n
        invariant
            i <= n == names@.len(),
            gs == names@.map_values(|s: String| generation_of(s@)),
            parsed@ == gs.take(i as int),
        decreases n - i,
    {
        parsed.push(parse_generation(names[i].as_str()));
        assert(parsed@ =~= gs.take(i + 1));
        i += 1;
    }
    assert(parsed@ =~= gs);
    let mut out: Vec<usize> = Vec::new();
    let mut k: usize = 0;
    while k < n
        invariant
            k <= n == names@.len(),
            parsed@ == gs,
            gs == names@.map_values(|s: String| generation_of(s@)),
            gs.len() == n,
            forall|j: int| 0 <= j < out@.len() ==> (#[trigger] out@[j] as int) < k,
            forall|a: int, b: int| 0 <= a < b < out@.len() ==> out@[a] < out@[b],
            forall|m: usize| m < k ==> (#[trigger] out@.contains(m) <==> dropped(names@, keep, m as int)),
        decreases n - k,
    {
        let ghost before = out@;
        let mut dropping = false;
        match parsed[k] {
            Some(g) => {
                let c = count_newer(&parsed, k, g);
                assert(dropped(names@, keep, k as int) == (c >= keep));
                if c >= keep {
                    out.push(k);
                    dropping = true;
                }
            },
            None => {
                assert(!dropped(names@, keep, k as int));
            },
        }
        proof {
            assert(dropping == dropped(names@, keep, k as int));
            assert(out@ == if dropping { before.push(k) } else { before });
            assert forall|m: usize| m < k + 1 implies (#[trigger] out@.contains(m) <==> dropped(names@, keep, m as int)) by {
                if out@.contains(m) {
                    let x = choose|x: int| 0 <= x < out@.len() && out@[x] == m;
                    if x < before.len() {
                        assert(before[x] == m);
                        assert(before.contains(m));
                    }
                }
                if m < k && before.contains(m) {
                    let x = choose|x: int| 0 <= x < before.len() && before[x] == m;
                    assert(out@[x] == m);
                }
                if m == k && dropping {
                    assert(out@[before.len() as int] == k);
                }
            }
        }
        k += 1;
    }
    out
}

/// How many generations rank above generation `k`, counting from `i`:
/// newer ones, and equal ones listed before it.
pub open spec fn newer_from(gs: Seq<Option<u64>>, k: int, i: int) -> nat
    decreases gs.len() - i,
{
    if i < 0 || i >= gs.len() {
        0
    } else {
        newer_from(gs, k, i + 1) + if above(gs, i, k) { 1nat } else { 0nat }
    }
}

/// Whether generation `j` ranks above generation `k`.
pub open spec fn above(gs: Seq<Option<u64>>, j: int, k: int) -> bool {
    match (gs[j], gs[k]) {
        (Some(a), Some(b)) => a > b || (a == b && j < k),
        _ => false,
    }
}

/// How many generations rank above generation `k`.
pub open spec fn newer_count(gs: Seq<Option<u64>>, k: int) -> nat {
    newer_from(gs, k, 0)
}

fn count_newer(gs: &Vec<Option<u64>>, k: usize, g: u64) -> (c: usize)
    requires
        k < gs@.len(),
        gs@[k as int] == Some(g),
    ensures
        c == newer_count(gs@, k as int),
{
    let n = gs.len();
    let mut c: usize = 0;
    let mut i = n;
    while i > 0
        invariant
            i <= n == gs@.len(),
            k < n,
            gs@[k as int] == Some(g),
            c <= n - i,
            c == newer_from(gs@, k as int, i as int),
        decreases i,
    {
        i -= 1;
        let is_above = match gs[i] {
            Some(a) => a > g || (a == g && i < k),
            None => false,
        };
        if is_above {
            c += 1;
        }
    }
    c
}


/// Counting from `i`, everything above `d` is above `k` too when `d` is
/// above `k`, and `d` itself counts for `k` only.
proof fn lemma_newer_dominates(gs: Seq<Option<u64>>, d: int, k: int, i: int)
    requires
        0 <= d < gs.len(),
        0 <= k < gs.len(),
        above(gs, d, k),
        0 <= i,
    ensures
        newer_from(gs, k, i) >= newer_from(gs, d, i) + if i <= d { 1nat } else { 0nat },
    decreases gs.len() - i,
{
    if i < gs.len() {
        lemma_newer_dominates(gs, d, k, i + 1);
        assert(above(gs, i, d) ==> above(gs, i, k));
    }
}

/// Pruning keeps the newest: every generation kept ranks above every
/// generation dropped (it is newer, or as new and listed first).
pub proof fn kept_generations_outrank_dropped(names: Seq<String>, keep: usize, k: int, d: int)
    requires
        0 <= k < names.len(),
        0 <= d < names.len(),
        generation_of(names[k]@) is Some,
        !dropped(names, keep, k),
        dropped(names, keep, d),
    ensures
        above(names.map_values(|s: String| generation_of(s@)), k, d),
{
    let gs = names.map_values(|s: String| generation_of(s@));
    assert(gs[k] == generation_of(names[k]@));
    if !above(gs, k, d) {
        assert(k != d);
        assert(above(gs, d, k));
        lemma_newer_dominates(gs, d, k, 0);
    }
}

} // verus!
