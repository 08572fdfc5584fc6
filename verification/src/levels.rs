//! The per-peer level meters.
//!
//! A level is a float between 0 and 1, carried as its bit pattern. Floats that
//! are not negative compare as their bit patterns do, so levels are compared as
//! integers; the one multiplication, the decay, is the caller's.

use vstd::prelude::*;

verus! {

/// The bit pattern of the level 1.0, the highest there is.
pub const FULL_LEVEL: u32 = 0x3f80_0000;

/// The bit pattern of the level 0.01, at or below which a meter is dropped.
pub const LEVEL_FLOOR: u32 = 0x3c23_d70a;

/// The levels at which the peers were last heard, by peer id.
pub struct Levels {
    entries: Vec<(u64, u32)>,
}

/// The larger of two levels.
pub open spec fn louder(a: u32, b: u32) -> u32 {
    if a < b {
        b
    } else {
        a
    }
}

/// The level of `id`, silence if it has none.
pub open spec fn level_of(entries: Seq<(u64, u32)>, id: u64) -> u32
    decreases entries.len(),
{
    if entries.len() == 0 {
        0
    } else if entries.last().0 == id {
        entries.last().1
    } else {
        level_of(entries.drop_last(), id)
    }
}

pub open spec fn has_level(entries: Seq<(u64, u32)>, id: u64) -> bool {
    exists|i: int| 0 <= i < entries.len() && (#[trigger] entries[i]).0 == id
}

/// The table after `id` was heard at `level`.
pub open spec fn raised(entries: Seq<(u64, u32)>, id: u64, level: u32) -> Seq<(u64, u32)> {
    if has_level(entries, id) {
        entries.map_values(
            |e: (u64, u32)|
                if e.0 == id {
                    (id, louder(e.1, level))
                } else {
                    e
                },
        )
    } else {
        entries.push((id, level))
    }
}

/// No peer has two levels, and no level is above full.
pub open spec fn valid_levels(entries: Seq<(u64, u32)>) -> bool {
    &&& forall|i: int, j: int|
        0 <= i < j < entries.len() ==> (#[trigger] entries[i]).0 != (#[trigger] entries[j]).0
    &&& forall|i: int| 0 <= i < entries.len() ==> (#[trigger] entries[i]).1 <= FULL_LEVEL
}

/// The entries with the levels `scaled`, as far as those are above the floor.
pub open spec fn decayed(entries: Seq<(u64, u32)>, scaled: Seq<u32>) -> Seq<(u64, u32)>
    decreases entries.len(),
{
    if entries.len() == 0 {
        Seq::empty()
    } else {
        let front = decayed(entries.drop_last(), scaled.drop_last());
        if scaled.last() > LEVEL_FLOOR {
            front.push((entries.last().0, scaled.last()))
        } else {
            front
        }
    }
}

proof fn lemma_valid_front(entries: Seq<(u64, u32)>)
    requires
        valid_levels(entries),
        entries.len() > 0,
    ensures
        valid_levels(entries.drop_last()),
{
    let front = entries.drop_last();
    assert forall|a: int, b: int| 0 <= a < b < front.len() implies (#[trigger] front[a]).0 != (
    #[trigger] front[b]).0 by {
        assert(entries[a].0 != entries[b].0);
    }
    assert forall|a: int| 0 <= a < front.len() implies (#[trigger] front[a]).1 <= FULL_LEVEL by {
        assert(entries[a].1 <= FULL_LEVEL);
    }
}

/// In a valid table the level of an entry is the level of its peer.
pub proof fn lemma_level_of(entries: Seq<(u64, u32)>, i: int)
    requires
        valid_levels(entries),
        0 <= i < entries.len(),
    ensures
        level_of(entries, entries[i].0) == entries[i].1,
    decreases entries.len(),
{
    if i < entries.len() - 1 {
        assert(entries[i].0 != entries.last().0);
        lemma_valid_front(entries);
        lemma_level_of(entries.drop_last(), i);
    }
}

proof fn lemma_level_absent(entries: Seq<(u64, u32)>, id: u64)
    requires
        !has_level(entries, id),
    ensures
        level_of(entries, id) == 0,
    decreases entries.len(),
{
    if entries.len() > 0 {
        assert(entries.last() == entries[entries.len() - 1]);
        assert(!has_level(entries.drop_last(), id)) by {
            assert forall|i: int| 0 <= i < entries.drop_last().len() implies (
            #[trigger] entries.drop_last()[i]).0 != id by {
                assert(entries[i].0 != id);
            }
        }
        lemma_level_absent(entries.drop_last(), id);
    }
}

/// What the decay leaves comes from the entries, in their order.
proof fn lemma_decayed_from(entries: Seq<(u64, u32)>, scaled: Seq<u32>, j: int) -> (i: int)
    requires
        entries.len() == scaled.len(),
        0 <= j < decayed(entries, scaled).len(),
    ensures
        0 <= i < entries.len(),
        decayed(entries, scaled)[j] == (entries[i].0, scaled[i]),
        scaled[i] > LEVEL_FLOOR,
        decayed(entries.take(i), scaled.take(i)).len() == j,
    decreases entries.len(),
{
    if entries.len() == 0 {
        0
    } else {
        let n = entries.len() - 1;
        assert(entries.drop_last() =~= entries.take(n));
        assert(scaled.drop_last() =~= scaled.take(n));
        if j == decayed(entries.drop_last(), scaled.drop_last()).len() {
            n
        } else {
            let i = lemma_decayed_from(entries.drop_last(), scaled.drop_last(), j);
            assert(entries.drop_last().take(i) =~= entries.take(i));
            assert(scaled.drop_last().take(i) =~= scaled.take(i));
            i
        }
    }
}

impl Levels {
    pub closed spec fn entries(&self) -> Seq<(u64, u32)> {
        self.entries@
    }

    pub open spec fn wf(&self) -> bool {
        valid_levels(self.entries())
    }

    pub fn new() -> (r: Self)
        ensures
            r.wf(),
            r.entries() == Seq::<(u64, u32)>::empty(),
    {
        Levels { entries: Vec::new() }
    }

    fn find(&self, id: u64) -> (r: Option<usize>)
        ensures
            match r {
                Some(i) => i < self.entries@.len() && self.entries@[i as int].0 == id,
                None => !has_level(self.entries@, id),
            },
    {
        let mut i: usize = 0;
        while i < self.entries.len()
            invariant
                i <= self.entries@.len(),
                forall|j: int| 0 <= j < i ==> (#[trigger] self.entries@[j]).0 != id,
            decreases self.entries@.len() - i,
        {
            if self.entries[i].0 == id {
                return Some(i);
            }
            i += 1;
        }
        None
    }

    /// The level to show for a peer.
    pub fn level(&self, id: u64) -> (r: u32)
        requires
            self.wf(),
        ensures
            r == level_of(self.entries(), id),
    {
        match self.find(id) {
            Some(i) => {
                proof {
                    lemma_level_of(self.entries@, i as int);
                }
                self.entries[i].1
            },
            None => {
                proof {
                    lemma_level_absent(self.entries@, id);
                }
                0
            },
        }
    }

    /// A peer was heard at `level`: its meter jumps there unless it is higher.
    pub fn raise(&mut self, id: u64, level: u32)
        requires
            old(self).wf(),
            level <= FULL_LEVEL,
        ensures
            final(self).wf(),
            final(self).entries() == raised(old(self).entries(), id, level),
    {
        match self.find(id) {
            Some(i) => {
                let held = self.entries[i].1;
                if held < level {
                    self.entries.set(i, (id, level));
                }
                assert(self.entries@ =~= raised(old(self).entries@, id, level));
            },
            None => {
                self.entries.push((id, level));
            },
        }
    }

    /// The levels, in the order of the table.
    pub fn values(&self) -> (r: Vec<u32>)
        ensures
            r@ == self.entries().map_values(|e: (u64, u32)| e.1),
    {
        let mut r: Vec<u32> = Vec::new();
        let mut i: usize = 0;
        while i < self.entries.len()
            invariant
                i <= self.entries@.len(),
                r@ == self.entries@.take(i as int).map_values(|e: (u64, u32)| e.1),
            decreases self.entries@.len() - i,
        {
            r.push(self.entries[i].1);
            i += 1;
            assert(r@ =~= self.entries@.take(i as int).map_values(|e: (u64, u32)| e.1));
        }
        assert(self.entries@.take(i as int) =~= self.entries@);
        r
    }

    /// Puts the decayed levels `scaled` in place of the levels, in the order of
    /// the table, and drops the meters that have fallen to the floor.
    pub fn decay(&mut self, scaled: &Vec<u32>)
        requires
            old(self).wf(),
            scaled@.len() == old(self).entries().len(),
            forall|i: int| 0 <= i < scaled@.len() ==> #[trigger] scaled@[i] <= old(self).entries()[i].1,
        ensures
            final(self).wf(),
            final(self).entries() == decayed(old(self).entries(), scaled@),
    {
        let mut kept: Vec<(u64, u32)> = Vec::new();
        let mut i: usize = 0;
        while i < self.entries.len()
            invariant
                self == old(self),
                i <= self.entries@.len(),
                scaled@.len() == self.entries@.len(),
                kept@ == decayed(self.entries@.take(i as int), scaled@.take(i as int)),
            decreases self.entries@.len() - i,
        {
            assert(self.entries@.take(i + 1).drop_last() =~= self.entries@.take(i as int));
            assert(scaled@.take(i + 1).drop_last() =~= scaled@.take(i as int));
            if scaled[i] > LEVEL_FLOOR {
                kept.push((self.entries[i].0, scaled[i]));
            }
            i += 1;
        }
        assert(self.entries@.take(i as int) =~= self.entries@);
        assert(scaled@.take(i as int) =~= scaled@);
        let ghost before = self.entries@;
        assert forall|a: int, b: int| 0 <= a < b < kept@.len() implies (#[trigger] kept@[a]).0 != (
        #[trigger] kept@[b]).0 by {
            let x = lemma_decayed_from(before, scaled@, a);
            let y = lemma_decayed_from(before, scaled@, b);
            assert(x != y);
            assert(before[x].0 != before[y].0);
        }
        assert forall|a: int| 0 <= a < kept@.len() implies (#[trigger] kept@[a]).1 <= FULL_LEVEL by {
            let x = lemma_decayed_from(before, scaled@, a);
            assert(before[x].1 <= FULL_LEVEL);
        }
        self.entries = kept;
    }
}

// ---- laws -------------------------------------------------------------------

/// A meter never falls because its peer was heard: it shows the level at which
/// the peer was heard or what it showed before, and at least as much as both.
/// Other meters stay where they are, and no peer gets a second one.
pub proof fn raising_is_monotone(entries: Seq<(u64, u32)>, id: u64, level: u32, other: u64)
    requires
        valid_levels(entries),
        level <= FULL_LEVEL,
    ensures
        ({
            let before = level_of(entries, id);
            let after = level_of(raised(entries, id, level), id);
            &&& level <= after
            &&& before <= after
            &&& after == level || after == before
        }),
        other != id ==> level_of(raised(entries, id, level), other) == level_of(entries, other),
        has_level(raised(entries, id, level), id),
        other != id ==> (has_level(raised(entries, id, level), other) <==> has_level(
            entries,
            other,
        )),
        valid_levels(raised(entries, id, level)),
{
    let b = entries;
    let a = raised(entries, id, level);
    assert(valid_levels(a));
    if has_level(b, id) {
        let i = choose|i: int| 0 <= i < b.len() && (#[trigger] b[i]).0 == id;
        lemma_level_of(b, i);
        assert(a[i].0 == id);
        lemma_level_of(a, i);
    } else {
        lemma_level_absent(b, id);
        lemma_level_of(a, b.len() as int);
    }
    if other != id {
        if has_level(b, other) {
            let j = choose|j: int| 0 <= j < b.len() && (#[trigger] b[j]).0 == other;
            lemma_level_of(b, j);
            assert(a[j] == b[j]);
            lemma_level_of(a, j);
        } else {
            lemma_level_absent(b, other);
            assert forall|j: int| 0 <= j < a.len() implies (#[trigger] a[j]).0 != other by {
                if j < b.len() {
                    assert(b[j].0 != other);
                }
            }
            lemma_level_absent(a, other);
        }
    }
}

/// In a table that lists every peer once, a peer shows the level it is listed
/// with, and a peer that is not listed shows silence.
pub proof fn meters_show_what_is_listed(entries: Seq<(u64, u32)>, id: u64, i: int)
    requires
        forall|a: int, b: int|
            0 <= a < b < entries.len() ==> (#[trigger] entries[a]).0 != (#[trigger] entries[b]).0,
        forall|a: int| 0 <= a < entries.len() ==> (#[trigger] entries[a]).1 <= 0x3f80_0000,
    ensures
        0 <= i < entries.len() && entries[i].0 == id ==> level_of(entries, id) == entries[i].1,
        (forall|a: int| 0 <= a < entries.len() ==> (#[trigger] entries[a]).0 != id) ==> level_of(
            entries,
            id,
        ) == 0,
        level_of(entries, id) <= 0x3f80_0000,
{
    if 0 <= i < entries.len() && entries[i].0 == id {
        lemma_level_of(entries, i);
    }
    if has_level(entries, id) {
        let k = choose|k: int| 0 <= k < entries.len() && (#[trigger] entries[k]).0 == id;
        lemma_level_of(entries, k);
    } else {
        lemma_level_absent(entries, id);
    }
}

/// The table after `id` was heard at each of `levels`, one after the other.
pub open spec fn heard_levels(entries: Seq<(u64, u32)>, id: u64, levels: Seq<u32>) -> Seq<(u64, u32)>
    decreases levels.len(),
{
    if levels.len() == 0 {
        entries
    } else {
        raised(heard_levels(entries, id, levels.drop_last()), id, levels.last())
    }
}

/// Without decay a meter shows the loudest of what it showed and everything that
/// was heard since, in whatever order that came.
pub proof fn meters_hold_the_peak(entries: Seq<(u64, u32)>, id: u64, levels: Seq<u32>)
    requires
        valid_levels(entries),
        forall|k: int| 0 <= k < levels.len() ==> #[trigger] levels[k] <= FULL_LEVEL,
    ensures
        ({
            let after = level_of(heard_levels(entries, id, levels), id);
            &&& level_of(entries, id) <= after
            &&& forall|k: int| 0 <= k < levels.len() ==> #[trigger] levels[k] <= after
            &&& after == level_of(entries, id) || levels.contains(after)
        }),
        valid_levels(heard_levels(entries, id, levels)),
    decreases levels.len(),
{
    if levels.len() > 0 {
        let front = levels.drop_last();
        assert forall|k: int| 0 <= k < front.len() implies #[trigger] front[k] <= FULL_LEVEL by {
            assert(front[k] == levels[k]);
        }
        meters_hold_the_peak(entries, id, front);
        let before = heard_levels(entries, id, front);
        assert(levels[levels.len() - 1] == levels.last());
        raising_is_monotone(before, id, levels.last(), id);
        let after = level_of(heard_levels(entries, id, levels), id);
        assert forall|k: int| 0 <= k < levels.len() implies #[trigger] levels[k] <= after by {
            if k < front.len() {
                assert(front[k] == levels[k]);
            }
        }
        if front.contains(after) {
            let k = choose|k: int| 0 <= k < front.len() && front[k] == after;
            assert(levels[k] == after);
        }
        if after == levels.last() {
            assert(levels[levels.len() - 1] == after);
        }
    }
}

/// A decayed level is shown as long as it is above the floor, and its meter is
/// empty from then on.
pub proof fn meters_wear_off(entries: Seq<(u64, u32)>, scaled: Seq<u32>, i: int)
    requires
        valid_levels(entries),
        scaled.len() == entries.len(),
        0 <= i < entries.len(),
    ensures
        scaled[i] > 0x3c23_d70a ==> level_of(decayed(entries, scaled), entries[i].0) == scaled[i],
        scaled[i] <= 0x3c23_d70a ==> !has_level(decayed(entries, scaled), entries[i].0)
            && level_of(decayed(entries, scaled), entries[i].0) == 0,
    decreases entries.len(),
{
    let n = entries.len() - 1;
    let front = entries.drop_last();
    let kept = decayed(front, scaled.drop_last());
    let all = decayed(entries, scaled);
    let id = entries[i].0;
    lemma_valid_front(entries);
    if i < n {
        meters_wear_off(front, scaled.drop_last(), i);
        assert(entries[i].0 != entries[n].0);
        assert(scaled[n] > LEVEL_FLOOR ==> all.drop_last() =~= kept);
        if !has_level(kept, id) {
            assert forall|j: int| 0 <= j < all.len() implies (#[trigger] all[j]).0 != id by {
                if j < kept.len() {
                    assert(kept[j].0 != id);
                }
            }
        }
    } else {
        assert(!has_level(kept, id)) by {
            assert forall|j: int| 0 <= j < kept.len() implies (#[trigger] kept[j]).0 != id by {
                let k = lemma_decayed_from(front, scaled.drop_last(), j);
                assert(entries[k].0 != entries[n].0);
            }
        }
        lemma_level_absent(kept, id);
    }
}

/// The decay gives no meter to a peer that had none.
pub proof fn decay_adds_no_meter(entries: Seq<(u64, u32)>, scaled: Seq<u32>, id: u64)
    requires
        scaled.len() == entries.len(),
        !has_level(entries, id),
    ensures
        !has_level(decayed(entries, scaled), id),
        level_of(decayed(entries, scaled), id) == 0,
{
    let all = decayed(entries, scaled);
    assert forall|j: int| 0 <= j < all.len() implies (#[trigger] all[j]).0 != id by {
        let i = lemma_decayed_from(entries, scaled, j);
        assert(entries[i].0 != id);
    }
    lemma_level_absent(all, id);
}

} // verus!
