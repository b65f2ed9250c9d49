//! Choosing the first keysound number of each stem.
use vstd::prelude::*;

use crate::error::Error;
use crate::grouping::{
    group_by_key, is_grouping, key_order, key_view, lemma_key_order_distinct, lemma_members_absent, members_of,
};
use crate::project::{autos, has_time, inserted, insert_in_order, sort_by_time, union_of, Slice, Slices, Stem};

verus! {

/// Two base-62 digits name keysounds below this number.
pub open spec fn keysound_limit() -> u64 {
    3844
}

/// The group a stem's keysounds are counted in: its group name, unless that
/// is missing or empty.
pub open spec fn keysound_group(st: Stem) -> Option<String> {
    match st.group {
        Some(g) => if g@.len() > 0 {
            Some(g)
        } else {
            None
        },
        None => None,
    }
}

/// The keysound groups of all stems.
pub open spec fn keysound_keys(stems: Seq<Stem>) -> Seq<Option<String>> {
    Seq::new(stems.len(), |i: int| keysound_group(stems[i]))
}

/// The slices of the stems at `members` merged in order.
pub open spec fn merged_of(stems: Seq<Stem>, members: Seq<int>) -> Seq<Slice>
    decreases members.len(),
{
    if members.len() == 0 {
        Seq::empty()
    } else {
        union_of(merged_of(stems, members.drop_last()), stems[members.last()].slices@)
    }
}

/// The stems that share keysounds, in the order they are numbered: every group
/// (in order of first appearance) with its merged slices, then every stem
/// without a group with its own slices.
pub open spec fn keysound_units(stems: Seq<Stem>) -> Seq<(Seq<int>, Seq<Slice>)> {
    let keys = keysound_keys(stems);
    let order = key_order(keys);
    let strays = members_of(keys, None);
    Seq::new(
        order.len(),
        |j: int|
            (
                members_of(keys, Some(order[j])),
                merged_of(stems, members_of(keys, Some(order[j]))),
            ),
    ) + Seq::new(strays.len(), |j: int| (seq![strays[j]], stems[strays[j]].slices@))
}

/// The starting keysounds after numbering `units` in order from 1, each unit
/// with slices taking as many numbers as its slices need keysounds plus
/// `wiggle`; with the next free number, or `None` once that number overflowed.
pub open spec fn keysound_run(units: Seq<(Seq<int>, Seq<Slice>)>, start: Seq<Option<u64>>, wiggle: u64) -> (
    Seq<Option<u64>>,
    Option<u64>,
)
    decreases units.len(),
{
    if units.len() == 0 {
        (start, Some(1u64))
    } else {
        let prev = keysound_run(units.drop_last(), start, wiggle);
        let unit = units.last();
        match prev.1 {
            None => prev,
            Some(k) => if unit.1.len() == 0 {
                prev
            } else {
                let next = k + autos(unit.1).len() + wiggle;
                (
                    Seq::new(
                        prev.0.len(),
                        |i: int|
                            if unit.0.contains(i) {
                                Some(k)
                            } else {
                                prev.0[i]
                            },
                    ),
                    if next <= u64::MAX {
                        Some(next as u64)
                    } else {
                        None
                    },
                )
            },
        }
    }
}

/// Adding a unit's keysound count to `wiggle` never overflows on the way.
pub open spec fn keysound_run_fits(units: Seq<(Seq<int>, Seq<Slice>)>, start: Seq<Option<u64>>, wiggle: u64) -> bool
    decreases units.len(),
{
    if units.len() == 0 {
        true
    } else {
        &&& keysound_run_fits(units.drop_last(), start, wiggle)
        &&& (keysound_run(units.drop_last(), start, wiggle).1 is Some && units.last().1.len() > 0
            ==> autos(units.last().1).len() + wiggle <= u64::MAX)
    }
}

/// The starting keysounds of `stems`.
pub open spec fn starting_keysounds(stems: Seq<Stem>) -> Seq<Option<u64>> {
    Seq::new(stems.len(), |i: int| stems[i].starting_keysound)
}

/// What numbering the stems ends with.
pub open spec fn keysound_outcome(next: Option<u64>) -> Result<(), Error> {
    match next {
        None => Err(Error::SliceCountOverflow),
        Some(k) => if k >= keysound_limit() {
            Err(Error::TooManySlices(k))
        } else {
            Ok(())
        },
    }
}

/// The slices of `stems[members]` merged in order.
fn merge_members(stems: &Vec<Stem>, members: &Vec<usize>) -> (r: Slices)
    requires
        forall|j: int| 0 <= j < members@.len() ==> (#[trigger] members@[j]) < stems@.len(),
    ensures
        r@ == merged_of(stems@, members@.map_values(|i: usize| i as int)),
{
    let mut merged = Slices(Vec::new());
    let n = members.len();
    let ghost ms = members@.map_values(|i: usize| i as int);
    for j in 0..n
        invariant
            n == members@.len(),
            ms == members@.map_values(|i: usize| i as int),
            forall|j: int| 0 <= j < members@.len() ==> (#[trigger] members@[j]) < stems@.len(),
            merged@ == merged_of(stems@, ms.take(j as int)),
    {
        merged.union(&stems[members[j]].slices);
        proof {
            assert(ms.take(j + 1).drop_last() =~= ms.take(j as int));
            assert(ms.take(j + 1).last() == members@[j as int] as int);
        }
    }
    proof {
        assert(ms.take(n as int) =~= ms);
    }
    merged
}

/// Sets the starting keysound of `stems[members]` to `k`.
fn assign_members(stems: &mut Vec<Stem>, members: &Vec<usize>, k: u64)
    requires
        forall|j: int| 0 <= j < members@.len() ==> (#[trigger] members@[j]) < old(stems)@.len(),
    ensures
        final(stems)@.len() == old(stems)@.len(),
        forall|i: int|
            0 <= i < old(stems)@.len() ==> (#[trigger] final(stems)@[i]) == (Stem {
                starting_keysound: if members@.map_values(|m: usize| m as int).contains(i) {
                    Some(k)
                } else {
                    old(stems)@[i].starting_keysound
                },
                ..old(stems)@[i]
            }),
{
    let n = members.len();
    let ghost ms = members@.map_values(|m: usize| m as int);
    for j in 0..n
        invariant
            n == members@.len(),
            ms == members@.map_values(|m: usize| m as int),
            forall|j: int| 0 <= j < members@.len() ==> (#[trigger] members@[j]) < old(stems)@.len(),
            stems@.len() == old(stems)@.len(),
            forall|i: int|
                0 <= i < old(stems)@.len() ==> (#[trigger] stems@[i]) == (Stem {
                    starting_keysound: if ms.take(j as int).contains(i) {
                        Some(k)
                    } else {
                        old(stems)@[i].starting_keysound
                    },
                    ..old(stems)@[i]
                }),
    {
        let idx = members[j];
        stems[idx].starting_keysound = Some(k);
        proof {
            assert forall|i: int| 0 <= i < old(stems)@.len() implies ms.take(j + 1).contains(i) == (
            ms.take(j as int).contains(i) || i == idx as int) by {
                if ms.take(j + 1).contains(i) {
                    let t = choose|t: int| 0 <= t < ms.take(j + 1).len() && #[trigger] ms.take(j + 1)[t] == i;
                    if t < j {
                        assert(ms.take(j as int)[t] == i);
                    }
                }
                if ms.take(j as int).contains(i) {
                    let t = choose|t: int|
                        0 <= t < ms.take(j as int).len() && #[trigger] ms.take(j as int)[t] == i;
                    assert(ms.take(j + 1)[t] == i);
                }
                if i == idx as int {
                    assert(ms.take(j + 1)[j as int] == i);
                }
            }
        }
    }
    proof {
        assert(ms.take(n as int) =~= ms);
    }
}

/// Numbers the keysounds of every stem: stems of one group share a starting
/// keysound, groups come first (in order of first appearance), then the stems
/// without a group; each takes as many numbers as its slices need keysounds
/// plus `wiggle_room`. Stems without slices are left alone. Fails when the
/// numbering overflows or reaches the two-digit base-62 limit.
pub fn calculate_initial_keysounds(stems: &mut Vec<Stem>, wiggle_room: u64) -> (r: Result<(), Error>)
    requires
        keysound_run_fits(keysound_units(old(stems)@), starting_keysounds(old(stems)@), wiggle_room),
    ensures
        ({
            let run = keysound_run(
                keysound_units(old(stems)@),
                starting_keysounds(old(stems)@),
                wiggle_room,
            );
            &&& final(stems)@.len() == old(stems)@.len()
            &&& forall|i: int|
                0 <= i < old(stems)@.len() ==> (#[trigger] final(stems)@[i]) == (Stem {
                    starting_keysound: run.0[i],
                    ..old(stems)@[i]
                })
            &&& r == keysound_outcome(run.1)
        }),
{
    let ghost units = keysound_units(old(stems)@);
    let ghost start = starting_keysounds(old(stems)@);
    let n = stems.len();
    let mut keys: Vec<Option<String>> = Vec::new();
    for i in 0..n
        invariant
            n == stems@.len(),
            keys@.len() == i,
            forall|j: int| 0 <= j < i ==> keys@[j] == keysound_group(#[trigger] stems@[j]),
    {
        let key = match &stems[i].group {
            Some(g) => if g.as_str().is_empty() {
                None
            } else {
                Some(g.clone())
            },
            None => None,
        };
        keys.push(key);
    }
    proof {
        assert(keys@ =~= keysound_keys(stems@));
    }
    let (names, groups, strays) = group_by_key(&keys);
    let ghost keys_v = keys@;
    let ghost order = key_order(keys_v);
    let ghost stray_members = members_of(keys_v, None);
    let ghost group_count = groups@.len();
    proof {
        assert(is_grouping(keys_v, names@, groups@, strays@));
        assert forall|g: int, j: int| 0 <= g < groups@.len() && 0 <= j < groups@[g]@.len() implies (
        #[trigger] groups@[g]@[j]) < stems@.len() by {
            lemma_members_in_range(keys_v, Some(order[g]));
            assert(groups@[g]@.map_values(|i: usize| i as int)[j] == groups@[g]@[j] as int);
        }
        assert forall|j: int| 0 <= j < strays@.len() implies (#[trigger] strays@[j]) < stems@.len() by {
            lemma_members_in_range(keys_v, None);
            assert(strays@.map_values(|i: usize| i as int)[j] == strays@[j] as int);
        }
    }
    let mut keysound: u64 = 1;
    let ghost mut processed: int = 0;
    let ng = groups.len();
    for g in 0..ng
        invariant
            ng == groups@.len(),
            group_count == ng,
            n == old(stems)@.len(),
            stems@.len() == n,
            keys_v == keysound_keys(old(stems)@),
            units == keysound_units(old(stems)@),
            start == starting_keysounds(old(stems)@),
            is_grouping(keys_v, names@, groups@, strays@),
            order == key_order(keys_v),
            forall|g: int, j: int|
                0 <= g < groups@.len() && 0 <= j < groups@[g]@.len() ==> (#[trigger] groups@[g]@[j])
                    < stems@.len(),
            keysound_run_fits(units, start, wiggle_room),
            keysound_run(units.take(g as int), start, wiggle_room).1 == Some(keysound),
            forall|i: int|
                0 <= i < n ==> (#[trigger] stems@[i]) == (Stem {
                    starting_keysound: keysound_run(units.take(g as int), start, wiggle_room).0[i],
                    ..old(stems)@[i]
                }),
            keysound_run(units.take(g as int), start, wiggle_room).0.len() == n,
    {
        proof {
            lemma_units_take(old(stems)@, g as int);
            lemma_run_fits_prefix(units, start, wiggle_room, g + 1);
        }
        let merged = merge_members(stems, &groups[g]);
        proof {
            assert(units[g as int].0 == groups@[g as int]@.map_values(|i: usize| i as int));
            lemma_merged_unchanged(old(stems)@, stems@, groups@[g as int]@.map_values(|i: usize| i as int));
            assert(merged@ == units[g as int].1);
            assert(units.take(g + 1).drop_last() =~= units.take(g as int));
            assert(units.take(g + 1).last() == units[g as int]);
        }
        if merged.0.len() > 0 {
            let count = merged.keysounds_required() as u64;
            assign_members(stems, &groups[g], keysound);
            let step = count + wiggle_room;
            match keysound.checked_add(step) {
                Some(next) => keysound = next,
                None => {
                    proof {
                        lemma_run_stops(units, start, wiggle_room, g + 1);
                        assert forall|i: int| 0 <= i < n implies (#[trigger] stems@[i]) == (Stem {
                            starting_keysound: keysound_run(units, start, wiggle_room).0[i],
                            ..old(stems)@[i]
                        }) by {}
                    }
                    return Err(Error::SliceCountOverflow);
                },
            }
        }
    }
    let ns = strays.len();
    for t in 0..ns
        invariant
            ns == strays@.len(),
            ng == group_count,
            group_count == key_order(keys_v).len(),
            n == old(stems)@.len(),
            stems@.len() == n,
            keys_v == keysound_keys(old(stems)@),
            units == keysound_units(old(stems)@),
            start == starting_keysounds(old(stems)@),
            strays@.map_values(|i: usize| i as int) == members_of(keys_v, None),
            forall|j: int| 0 <= j < strays@.len() ==> (#[trigger] strays@[j]) < stems@.len(),
            keysound_run_fits(units, start, wiggle_room),
            keysound_run(units.take(ng + t), start, wiggle_room).1 == Some(keysound),
            forall|i: int|
                0 <= i < n ==> (#[trigger] stems@[i]) == (Stem {
                    starting_keysound: keysound_run(units.take(ng + t), start, wiggle_room).0[i],
                    ..old(stems)@[i]
                }),
            keysound_run(units.take(ng + t), start, wiggle_room).0.len() == n,
    {
        proof {
            lemma_units_stray(old(stems)@, t as int);
            lemma_run_fits_prefix(units, start, wiggle_room, ng + t + 1);
            assert(units.take(ng + t + 1).drop_last() =~= units.take(ng + t));
            assert(units.take(ng + t + 1).last() == units[ng + t]);
        }
        let idx = strays[t];
        if stems[idx].slices.0.len() > 0 {
            let count = stems[idx].slices.keysounds_required() as u64;
            let mut single: Vec<usize> = Vec::new();
            single.push(idx);
            proof {
                assert(single@.map_values(|m: usize| m as int) =~= seq![idx as int]);
                assert(stems@[idx as int].slices == old(stems)@[idx as int].slices);
            }
            assign_members(stems, &single, keysound);
            let step = count + wiggle_room;
            match keysound.checked_add(step) {
                Some(next) => keysound = next,
                None => {
                    proof {
                        lemma_run_stops(units, start, wiggle_room, ng + t + 1);
                    }
                    return Err(Error::SliceCountOverflow);
                },
            }
        } else {
            proof {
                assert(stems@[idx as int].slices == old(stems)@[idx as int].slices);
            }
        }
    }
    proof {
        assert(units.len() == ng + ns) by {
            assert(strays@.map_values(|i: usize| i as int).len() == ns);
        }
        assert(units.take(ng + ns) =~= units);
    }
    if keysound >= 3844 {
        return Err(Error::TooManySlices(keysound));
    }
    Ok(())
}

/// Members lie within the keys.
proof fn lemma_members_in_range(keys: Seq<Option<String>>, key: Option<Seq<char>>)
    ensures
        forall|j: int|
            0 <= j < members_of(keys, key).len() ==> 0 <= #[trigger] members_of(keys, key)[j] < keys.len(),
    decreases keys.len(),
{
    if keys.len() > 0 {
        let prev = keys.drop_last();
        lemma_members_in_range(prev, key);
        let m = members_of(keys, key);
        assert forall|j: int| 0 <= j < m.len() implies 0 <= #[trigger] m[j] < keys.len() by {
            if j < members_of(prev, key).len() {
                assert(m[j] == members_of(prev, key)[j]);
            }
        }
    }
}

/// The group units come from the grouping.
proof fn lemma_units_take(stems: Seq<Stem>, g: int)
    requires
        0 <= g < key_order(keysound_keys(stems)).len(),
    ensures
        keysound_units(stems)[g] == ({
            let keys = keysound_keys(stems);
            let m = members_of(keys, Some(key_order(keys)[g]));
            (m, merged_of(stems, m))
        }),
{
}

/// The stray units come after the groups.
proof fn lemma_units_stray(stems: Seq<Stem>, t: int)
    requires
        0 <= t < members_of(keysound_keys(stems), None).len(),
    ensures
        ({
            let keys = keysound_keys(stems);
            let ng = key_order(keys).len();
            let s = members_of(keys, None)[t];
            keysound_units(stems).len() == ng + members_of(keys, None).len()
                && keysound_units(stems)[ng + t] == (seq![s], stems[s].slices@)
        }),
{
}

/// Merging reads only slices, which numbering leaves alone.
proof fn lemma_merged_unchanged(a: Seq<Stem>, b: Seq<Stem>, members: Seq<int>)
    requires
        a.len() == b.len(),
        forall|i: int| 0 <= i < a.len() ==> (#[trigger] b[i]).slices == a[i].slices,
        forall|j: int| 0 <= j < members.len() ==> 0 <= #[trigger] members[j] < a.len(),
    ensures
        merged_of(a, members) == merged_of(b, members),
    decreases members.len(),
{
    if members.len() > 0 {
        lemma_merged_unchanged(a, b, members.drop_last());
        assert(b[members.last()].slices == a[members.last()].slices);
    }
}

/// The overflow condition holds on every prefix.
proof fn lemma_run_fits_prefix(units: Seq<(Seq<int>, Seq<Slice>)>, start: Seq<Option<u64>>, wiggle: u64, m: int)
    requires
        0 <= m <= units.len(),
        keysound_run_fits(units, start, wiggle),
    ensures
        keysound_run_fits(units.take(m), start, wiggle),
        m > 0 ==> (keysound_run(units.take(m - 1), start, wiggle).1 is Some && units[m - 1].1.len() > 0
            ==> autos(units[m - 1].1).len() + wiggle <= u64::MAX),
    decreases units.len() - m,
{
    if m < units.len() {
        lemma_run_fits_prefix(units.drop_last(), start, wiggle, m);
        assert(units.drop_last().take(m) =~= units.take(m));
        if m > 0 {
            assert(units.drop_last()[m - 1] == units[m - 1]);
            assert(units.drop_last().take(m - 1) =~= units.take(m - 1));
        }
    } else {
        assert(units.take(m) =~= units);
        if m > 0 {
            assert(units.drop_last() =~= units.take(m - 1));
        }
    }
}

/// Once numbering overflows, later units change nothing.
proof fn lemma_run_stops(units: Seq<(Seq<int>, Seq<Slice>)>, start: Seq<Option<u64>>, wiggle: u64, m: int)
    requires
        0 <= m <= units.len(),
        keysound_run(units.take(m), start, wiggle).1 is None,
    ensures
        keysound_run(units, start, wiggle) == keysound_run(units.take(m), start, wiggle),
    decreases units.len() - m,
{
    if m < units.len() {
        assert(units.take(m + 1).drop_last() =~= units.take(m));
        lemma_run_stops(units, start, wiggle, m + 1);
    } else {
        assert(units.take(m) =~= units);
    }
}

/// The next free keysound number after numbering the first `j` units.
pub open spec fn next_free(units: Seq<(Seq<int>, Seq<Slice>)>, start: Seq<Option<u64>>, wiggle: u64, j: int) -> Option<u64> {
    keysound_run(units.take(j), start, wiggle).1
}

/// The next free number only grows, and once it overflows it stays so.
proof fn lemma_next_free_grows(
    units: Seq<(Seq<int>, Seq<Slice>)>,
    start: Seq<Option<u64>>,
    wiggle: u64,
    a: int,
    b: int,
)
    requires
        0 <= a <= b <= units.len(),
        next_free(units, start, wiggle, b) is Some,
    ensures
        next_free(units, start, wiggle, a) is Some,
        next_free(units, start, wiggle, a)->0 <= next_free(units, start, wiggle, b)->0,
    decreases b - a,
{
    if a < b {
        assert(units.take(b).drop_last() =~= units.take(b - 1));
        assert(units.take(b).last() == units[b - 1]);
        lemma_next_free_grows(units, start, wiggle, a, b - 1);
    }
}

/// Numbering keeps one starting keysound per stem.
proof fn lemma_run_len(units: Seq<(Seq<int>, Seq<Slice>)>, start: Seq<Option<u64>>, wiggle: u64)
    ensures
        keysound_run(units, start, wiggle).0.len() == start.len(),
    decreases units.len(),
{
    if units.len() > 0 {
        lemma_run_len(units.drop_last(), start, wiggle);
    }
}

/// Units numbered one after the other never share keysound numbers: a unit
/// with slices is numbered from the next free number, and every later unit
/// starts after its keysounds and the spare room that follows them.
pub proof fn lemma_units_do_not_overlap(
    units: Seq<(Seq<int>, Seq<Slice>)>,
    start: Seq<Option<u64>>,
    wiggle: u64,
    a: int,
    b: int,
)
    requires
        0 <= a < b <= units.len(),
        units[a].1.len() > 0,
        next_free(units, start, wiggle, b) is Some,
    ensures
        next_free(units, start, wiggle, a) is Some,
        forall|i: int|
            0 <= i < start.len() && units[a].0.contains(i) ==> #[trigger] keysound_run(
                units.take(a + 1),
                start,
                wiggle,
            ).0[i] == next_free(units, start, wiggle, a),
        next_free(units, start, wiggle, a)->0 + autos(units[a].1).len() + wiggle <= next_free(
            units,
            start,
            wiggle,
            b,
        )->0,
{
    lemma_next_free_grows(units, start, wiggle, a + 1, b);
    assert(units.take(a + 1).drop_last() =~= units.take(a));
    assert(units.take(a + 1).last() == units[a]);
    lemma_next_free_grows(units, start, wiggle, a, a + 1);
    lemma_run_len(units.take(a), start, wiggle);
}

/// The members of `key` are exactly the indices holding it, in increasing
/// order.
proof fn lemma_members_exact(keys: Seq<Option<String>>, key: Option<Seq<char>>)
    ensures
        forall|i: int|
            members_of(keys, key).contains(i) <==> (0 <= i < keys.len() && key_view(#[trigger] keys[i]) == key),
        forall|x: int, y: int|
            0 <= x < y < members_of(keys, key).len() ==> #[trigger] members_of(keys, key)[x]
                < #[trigger] members_of(keys, key)[y],
        forall|x: int| 0 <= x < members_of(keys, key).len() ==> 0 <= #[trigger] members_of(keys, key)[x] < keys.len(),
    decreases keys.len(),
{
    if keys.len() > 0 {
        let prev = keys.drop_last();
        lemma_members_exact(prev, key);
        let m = members_of(keys, key);
        let mp = members_of(prev, key);
        assert forall|i: int| m.contains(i) <==> (0 <= i < keys.len() && key_view(#[trigger] keys[i]) == key) by {
            if 0 <= i < prev.len() {
                assert(keys[i] == prev[i]);
            }
            if m.contains(i) {
                let x = choose|x: int| 0 <= x < m.len() && m[x] == i;
                if x < mp.len() {
                    assert(mp[x] == i);
                    assert(mp.contains(i));
                }
            }
            if 0 <= i < keys.len() && key_view(keys[i]) == key {
                if i < prev.len() {
                    assert(mp.contains(i));
                    let x = choose|x: int| 0 <= x < mp.len() && mp[x] == i;
                    assert(m[x] == i);
                } else {
                    assert(m.last() == i);
                }
            }
        }
        assert forall|x: int, y: int| 0 <= x < y < m.len() implies #[trigger] m[x] < #[trigger] m[y] by {
            if y < mp.len() {
                assert(m[x] == mp[x] && m[y] == mp[y]);
            } else {
                assert(m[x] == mp[x]);
            }
        }
        assert forall|x: int| 0 <= x < m.len() implies 0 <= #[trigger] m[x] < keys.len() by {
            if x < mp.len() {
                assert(m[x] == mp[x]);
            }
        }
    }
}

/// No stem belongs to two units.
proof fn lemma_units_disjoint(stems: Seq<Stem>, a: int, b: int, i: int)
    requires
        0 <= a < keysound_units(stems).len(),
        0 <= b < keysound_units(stems).len(),
        a != b,
        keysound_units(stems)[a].0.contains(i),
    ensures
        !keysound_units(stems)[b].0.contains(i),
{
    let keys = keysound_keys(stems);
    let order = key_order(keys);
    let strays = members_of(keys, None);
    let ng = order.len();
    let units = keysound_units(stems);
    lemma_key_order_distinct(keys);
    lemma_members_exact(keys, None);
    assert(units.len() == ng + strays.len());
    if units[b].0.contains(i) {
        // the key of stem `i` as each unit sees it
        let ka = if a < ng {
            Some(order[a])
        } else {
            None
        };
        let kb = if b < ng {
            Some(order[b])
        } else {
            None
        };
        lemma_members_exact(keys, ka);
        lemma_members_exact(keys, kb);
        if a < ng {
            assert(units[a].0 == members_of(keys, ka));
        } else {
            assert(units[a].0 == seq![strays[a - ng]]);
            assert(units[a].0[0] == i);
            assert(strays.contains(i));
        }
        if b < ng {
            assert(units[b].0 == members_of(keys, kb));
        } else {
            assert(units[b].0 == seq![strays[b - ng]]);
            assert(units[b].0[0] == i);
            assert(strays.contains(i));
        }
        assert(key_view(keys[i]) == ka);
        assert(key_view(keys[i]) == kb);
        if a < ng && b < ng {
            if a < b {
                assert(order[a] != order[b]);
            } else {
                assert(order[b] != order[a]);
            }
        } else if a >= ng && b >= ng {
            assert(strays[a - ng] == strays[b - ng]);
            if a < b {
                assert(strays[a - ng] < strays[b - ng]);
            } else {
                assert(strays[b - ng] < strays[a - ng]);
            }
        }
    }
}

/// Numbering later units leaves a stem of an earlier unit as it was.
proof fn lemma_run_keeps(
    units: Seq<(Seq<int>, Seq<Slice>)>,
    start: Seq<Option<u64>>,
    wiggle: u64,
    a: int,
    n: int,
    i: int,
)
    requires
        0 <= a < n <= units.len(),
        0 <= i < start.len(),
        forall|b: int| a < b < n ==> !(#[trigger] units[b]).0.contains(i),
    ensures
        keysound_run(units.take(n), start, wiggle).0[i] == keysound_run(units.take(a + 1), start, wiggle).0[i],
    decreases n - a,
{
    if n > a + 1 {
        lemma_run_keeps(units, start, wiggle, a, n - 1, i);
        assert(units.take(n).drop_last() =~= units.take(n - 1));
        assert(units.take(n).last() == units[n - 1]);
        lemma_run_len(units.take(n - 1), start, wiggle);
    }
}

/// Stems in different units never share keysound numbers. Units are the
/// groups in order of first appearance, then the stems without a group in
/// order; for a stem `i` of unit `a` and a stem `j` of a later unit `b`, both
/// units with slices, once numbering has not overflowed: each stem gets its
/// unit's number (the same for all stems of a unit, and at least 1), and
/// `j`'s number lies past `i`'s keysounds and the spare room after them.
pub proof fn lemma_stem_ranges_disjoint(stems: Seq<Stem>, wiggle: u64, a: int, b: int, i: int, j: int)
    requires
        0 <= a < b < keysound_units(stems).len(),
        keysound_units(stems)[a].1.len() > 0,
        keysound_units(stems)[b].1.len() > 0,
        keysound_units(stems)[a].0.contains(i),
        keysound_units(stems)[b].0.contains(j),
        0 <= i < stems.len(),
        0 <= j < stems.len(),
        keysound_run(keysound_units(stems), starting_keysounds(stems), wiggle).1 is Some,
    ensures
        ({
            let units = keysound_units(stems);
            let start = starting_keysounds(stems);
            let run = keysound_run(units, start, wiggle);
            &&& next_free(units, start, wiggle, a) is Some
            &&& next_free(units, start, wiggle, b) is Some
            &&& run.0[i] == next_free(units, start, wiggle, a)
            &&& run.0[j] == next_free(units, start, wiggle, b)
            &&& next_free(units, start, wiggle, a)->0 >= 1
            &&& next_free(units, start, wiggle, a)->0 + autos(units[a].1).len() + wiggle <= next_free(
                units,
                start,
                wiggle,
                b,
            )->0
        }),
{
    let units = keysound_units(stems);
    let start = starting_keysounds(stems);
    let n = units.len() as int;
    assert(units.take(n) =~= units);
    lemma_next_free_grows(units, start, wiggle, b + 1, n);
    lemma_next_free_grows(units, start, wiggle, b, n);
    lemma_units_do_not_overlap(units, start, wiggle, a, b);
    lemma_units_do_not_overlap(units, start, wiggle, b, b + 1);
    lemma_next_free_grows(units, start, wiggle, 0, a);
    assert(units.take(0) =~= Seq::<(Seq<int>, Seq<Slice>)>::empty());
    assert forall|c: int| a < c < n implies !(#[trigger] units[c]).0.contains(i) by {
        lemma_units_disjoint(stems, a, c, i);
    }
    assert forall|c: int| b < c < n implies !(#[trigger] units[c]).0.contains(j) by {
        lemma_units_disjoint(stems, b, c, j);
    }
    lemma_run_keeps(units, start, wiggle, a, n, i);
    lemma_run_keeps(units, start, wiggle, b, n, j);
}

/// Inserting in order adds one slice.
proof fn lemma_insert_in_order_len(s: Seq<Slice>, x: Slice)
    ensures
        insert_in_order(s, x).len() == s.len() + 1,
    decreases s.len(),
{
    if s.len() > 0 {
        lemma_insert_in_order_len(s.drop_last(), x);
    }
}

/// Sorting keeps the number of slices.
proof fn lemma_sort_len(s: Seq<Slice>)
    ensures
        sort_by_time(s).len() == s.len(),
    decreases s.len(),
{
    if s.len() > 0 {
        lemma_sort_len(s.drop_last());
        lemma_insert_in_order_len(sort_by_time(s.drop_last()), s.last());
    }
}

/// Merging never loses slices in number, and merging in some slices leaves
/// some.
proof fn lemma_union_len(s: Seq<Slice>, o: Seq<Slice>)
    ensures
        union_of(s, o).len() >= s.len(),
        o.len() > 0 ==> union_of(s, o).len() > 0,
    decreases o.len(),
{
    if o.len() > 0 {
        let u = union_of(s, o.drop_last());
        lemma_union_len(s, o.drop_last());
        if !has_time(u, o.last().time_point) {
            lemma_sort_len(u.push(o.last()));
        }
        assert(inserted(u, o.last()) == union_of(s, o));
    }
}

/// A group with a stem that has slices has merged slices.
proof fn lemma_merged_nonempty(stems: Seq<Stem>, members: Seq<int>, k: int)
    requires
        0 <= k < members.len(),
        stems[members[k]].slices@.len() > 0,
    ensures
        merged_of(stems, members).len() > 0,
    decreases members.len(),
{
    let prev = members.drop_last();
    if k == members.len() - 1 {
        lemma_union_len(merged_of(stems, prev), stems[members.last()].slices@);
    } else {
        assert(prev[k] == members[k]);
        lemma_merged_nonempty(stems, prev, k);
        lemma_union_len(merged_of(stems, prev), stems[members.last()].slices@);
    }
}

/// The unit a stem with slices belongs to: its group's, for a stem in a
/// group, else its own, which comes after every group in the order of the
/// stems without a group; either way a unit with slices.
proof fn lemma_unit_of(stems: Seq<Stem>, i: int) -> (a: int)
    requires
        0 <= i < stems.len(),
        stems[i].slices@.len() > 0,
    ensures
        0 <= a < keysound_units(stems).len(),
        keysound_units(stems)[a].0.contains(i),
        keysound_units(stems)[a].1.len() > 0,
        (keysound_group(stems[i]) is Some) <==> a < key_order(keysound_keys(stems)).len(),
        keysound_group(stems[i]) is None ==> members_of(keysound_keys(stems), None)[
            a - key_order(keysound_keys(stems)).len()
        ] == i,
{
    let keys = keysound_keys(stems);
    let order = key_order(keys);
    let strays = members_of(keys, None);
    let units = keysound_units(stems);
    let ng = order.len() as int;
    assert(keys[i] == keysound_group(stems[i]));
    match keysound_group(stems[i]) {
        Some(g) => {
            lemma_members_exact(keys, Some(g@));
            assert(members_of(keys, Some(g@)).contains(i));
            if !order.contains(g@) {
                lemma_members_absent(keys, g@);
            }
            let a = choose|a: int| 0 <= a < order.len() && order[a] == g@;
            let ms = members_of(keys, Some(g@));
            let k = choose|k: int| 0 <= k < ms.len() && ms[k] == i;
            assert(units[a].0 == ms);
            lemma_merged_nonempty(stems, ms, k);
            a
        },
        None => {
            lemma_members_exact(keys, None);
            assert(strays.contains(i));
            let t = choose|t: int| 0 <= t < strays.len() && strays[t] == i;
            assert(units[ng + t] == (seq![strays[t]], stems[strays[t]].slices@));
            assert(units[ng + t].0[0] == i);
            ng + t
        },
    }
}

/// Stems in a group are numbered before the stems without a group, and the
/// stems without a group in the order they come: of two stems with slices,
/// once numbering has not overflowed, a stem in a group, or a stem without a
/// group that comes before another stem without a group, starts at a number
/// no later than that other stem's.
pub proof fn lemma_numbering_order(stems: Seq<Stem>, wiggle: u64, i: int, j: int)
    requires
        0 <= i < stems.len(),
        0 <= j < stems.len(),
        keysound_group(stems[j]) is None,
        keysound_group(stems[i]) is Some || i < j,
        stems[i].slices@.len() > 0,
        stems[j].slices@.len() > 0,
        keysound_run(keysound_units(stems), starting_keysounds(stems), wiggle).1 is Some,
    ensures
        ({
            let run = keysound_run(keysound_units(stems), starting_keysounds(stems), wiggle).0;
            &&& run[i] is Some
            &&& run[j] is Some
            &&& run[i]->0 <= run[j]->0
        }),
{
    let keys = keysound_keys(stems);
    let ng = key_order(keys).len() as int;
    let a = lemma_unit_of(stems, i);
    let b = lemma_unit_of(stems, j);
    if keysound_group(stems[i]) is None {
        lemma_members_exact(keys, None);
        let strays = members_of(keys, None);
        if a >= b {
            if a > b {
                assert(strays[b - ng] < strays[a - ng]);
            }
        }
    }
    lemma_stem_ranges_disjoint(stems, wiggle, a, b, i, j);
}

} // verus!
