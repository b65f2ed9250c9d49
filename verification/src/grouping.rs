//! Grouping stems by their group name, and ordering group names.
use vstd::prelude::*;

verus! {

/// The characters of an optional name.
pub open spec fn key_view(k: Option<String>) -> Option<Seq<char>> {
    match k {
        Some(s) => Some(s@),
        None => None,
    }
}

/// The distinct names among `keys`, in order of first appearance.
pub open spec fn key_order(keys: Seq<Option<String>>) -> Seq<Seq<char>>
    decreases keys.len(),
{
    if keys.len() == 0 {
        Seq::empty()
    } else {
        let prev = key_order(keys.drop_last());
        match keys.last() {
            Some(g) => if prev.contains(g@) {
                prev
            } else {
                prev.push(g@)
            },
            None => prev,
        }
    }
}

/// The indices of `keys` that hold `key`, in increasing order.
pub open spec fn members_of(keys: Seq<Option<String>>, key: Option<Seq<char>>) -> Seq<int>
    decreases keys.len(),
{
    if keys.len() == 0 {
        Seq::empty()
    } else if key_view(keys.last()) == key {
        members_of(keys.drop_last(), key).push(keys.len() - 1)
    } else {
        members_of(keys.drop_last(), key)
    }
}

/// A grouping of `keys`: the names in order of first appearance, the indices
/// under each name, and the indices without a name.
pub open spec fn is_grouping(
    keys: Seq<Option<String>>,
    names: Seq<String>,
    groups: Seq<Vec<usize>>,
    strays: Seq<usize>,
) -> bool {
    &&& names.len() == key_order(keys).len()
    &&& groups.len() == names.len()
    &&& forall|j: int| 0 <= j < names.len() ==> (#[trigger] names[j])@ == key_order(keys)[j]
    &&& forall|j: int|
        0 <= j < groups.len() ==> (#[trigger] groups[j])@.map_values(|i: usize| i as int)
            == members_of(keys, Some(key_order(keys)[j]))
    &&& strays.map_values(|i: usize| i as int) == members_of(keys, None)
}

/// The position of `name` among `names`, if present.
fn find_name(names: &Vec<String>, name: &String) -> (r: Option<usize>)
    ensures
        r matches Some(j) ==> j < names@.len() && names@[j as int]@ == name@,
        r is None ==> forall|j: int| 0 <= j < names@.len() ==> names@[j]@ != name@,
{
    let n = names.len();
    for j in 0..n
        invariant
            n == names@.len(),
            forall|k: int| 0 <= k < j ==> names@[k]@ != name@,
    {
        if names[j] == *name {
            return Some(j);
        }
    }
    None
}

/// Groups the indices of `keys` by name.
pub fn group_by_key(keys: &Vec<Option<String>>) -> (r: (Vec<String>, Vec<Vec<usize>>, Vec<usize>))
    ensures
        is_grouping(keys@, r.0@, r.1@, r.2@),
{
    let mut names: Vec<String> = Vec::new();
    let mut groups: Vec<Vec<usize>> = Vec::new();
    let mut strays: Vec<usize> = Vec::new();
    let n = keys.len();
    proof {
        assert(keys@.take(0) =~= Seq::<Option<String>>::empty());
        assert(strays@.map_values(|i: usize| i as int) =~= Seq::<int>::empty());
    }
    for i in 0..n
        invariant
            n == keys@.len(),
            is_grouping(keys@.take(i as int), names@, groups@, strays@),
    {
        let ghost prev = keys@.take(i as int);
        let ghost next = keys@.take(i + 1);
        proof {
            assert(next.drop_last() =~= prev);
            assert(next.last() == keys@[i as int]);
        }
        match &keys[i] {
            None => {
                strays.push(i);
                proof {
                    assert(strays@.map_values(|i: usize| i as int) =~= members_of(prev, None).push(
                        i as int,
                    ));
                    assert forall|j: int| 0 <= j < groups@.len() implies (#[trigger] groups@[j])@.map_values(
                        |i: usize| i as int,
                    ) == members_of(next, Some(key_order(next)[j])) by {
                        assert(key_view(next.last()) != Some(key_order(next)[j]));
                    }
                }
            },
            Some(g) => {
                match find_name(&names, g) {
                    Some(j) => {
                        let ghost old_groups = groups@;
                        let mut members = groups[j].clone();
                        members.push(i);
                        groups.set(j, members);
                        proof {
                            lemma_key_order_distinct(prev);
                            assert(key_order(prev)[j as int] == g@);
                            assert(key_order(prev).contains(g@));
                            assert(key_order(next) == key_order(prev));
                            assert forall|k: int| 0 <= k < groups@.len() implies (#[trigger] groups@[k])@.map_values(
                                |i: usize| i as int,
                            ) == members_of(next, Some(key_order(next)[k])) by {
                                if k == j {
                                    assert(groups@[k]@ =~= old_groups[k]@.push(i));
                                    assert(groups@[k]@.map_values(|i: usize| i as int)
                                        =~= old_groups[k]@.map_values(|i: usize| i as int).push(
                                        i as int,
                                    ));
                                } else {
                                    assert(groups@[k] == old_groups[k]);
                                    assert(key_order(prev)[k] != g@);
                                }
                            }
                            assert(strays@.map_values(|i: usize| i as int) =~= members_of(
                                next,
                                None,
                            ));
                        }
                    },
                    None => {
                        let ghost old_groups = groups@;
                        let name = g.clone();
                        names.push(name);
                        let mut members: Vec<usize> = Vec::new();
                        members.push(i);
                        groups.push(members);
                        proof {
                            assert(!key_order(prev).contains(g@)) by {
                                if key_order(prev).contains(g@) {
                                    let k = choose|k: int|
                                        0 <= k < key_order(prev).len() && key_order(prev)[k] == g@;
                                    assert(names@[k]@ == g@);
                                }
                            }
                            assert(key_order(next) == key_order(prev).push(g@));
                            assert forall|k: int| 0 <= k < groups@.len() implies (#[trigger] groups@[k])@.map_values(
                                |i: usize| i as int,
                            ) == members_of(next, Some(key_order(next)[k])) by {
                                if k < old_groups.len() {
                                    assert(groups@[k] == old_groups[k]);
                                    assert(key_order(next)[k] == key_order(prev)[k]);
                                    assert(key_order(prev)[k] != g@) by {
                                        assert(key_order(prev).contains(key_order(prev)[k]));
                                    }
                                } else {
                                    assert(members_of(prev, Some(g@)) =~= Seq::<int>::empty())
                                        by {
                                        lemma_members_absent(prev, g@);
                                    }
                                    assert(groups@[k]@.map_values(|i: usize| i as int) =~= seq![
                                        i as int,
                                    ]);
                                }
                            }
                            assert(strays@.map_values(|i: usize| i as int) =~= members_of(
                                next,
                                None,
                            ));
                        }
                    },
                }
            },
        }
    }
    proof {
        assert(keys@.take(n as int) =~= keys@);
    }
    (names, groups, strays)
}

/// The ordered names are distinct.
pub proof fn lemma_key_order_distinct(keys: Seq<Option<String>>)
    ensures
        forall|a: int, b: int|
            0 <= a < b < key_order(keys).len() ==> #[trigger] key_order(keys)[a] != #[trigger] key_order(
                keys,
            )[b],
    decreases keys.len(),
{
    if keys.len() > 0 {
        let prev = keys.drop_last();
        lemma_key_order_distinct(prev);
        match keys.last() {
            Some(g) => {
                if !key_order(prev).contains(g@) {
                    let ko = key_order(keys);
                    assert forall|a: int, b: int| 0 <= a < b < ko.len() implies #[trigger] ko[a]
                        != #[trigger] ko[b] by {
                        if b == ko.len() - 1 {
                            assert(ko[a] == key_order(prev)[a]);
                        } else {
                            assert(ko[a] == key_order(prev)[a]);
                            assert(ko[b] == key_order(prev)[b]);
                        }
                    }
                }
            },
            None => {},
        }
    }
}

/// A name that is not among the ordered names has no members.
pub(crate) proof fn lemma_members_absent(keys: Seq<Option<String>>, g: Seq<char>)
    requires
        !key_order(keys).contains(g),
    ensures
        members_of(keys, Some(g)) == Seq::<int>::empty(),
    decreases keys.len(),
{
    if keys.len() > 0 {
        let prev = keys.drop_last();
        if key_order(prev).contains(g) {
            let k = choose|k: int| 0 <= k < key_order(prev).len() && key_order(prev)[k] == g;
            match keys.last() {
                Some(h) => {
                    if !key_order(prev).contains(h@) {
                        assert(key_order(keys)[k] == g);
                    } else {
                        assert(key_order(keys) == key_order(prev));
                    }
                },
                None => {},
            }
            assert(key_order(keys).contains(g));
        }
        lemma_members_absent(prev, g);
        match keys.last() {
            Some(h) => {
                if h@ == g {
                    if !key_order(prev).contains(h@) {
                        assert(key_order(keys).last() == g);
                        assert(key_order(keys).contains(g));
                    }
                }
            },
            None => {},
        }
    }
}

/// `a` comes after `b` in lexicographic order of characters.
pub open spec fn lex_greater(a: Seq<char>, b: Seq<char>) -> bool
    decreases a.len(),
{
    if a.len() == 0 {
        false
    } else if b.len() == 0 {
        true
    } else if a[0] != b[0] {
        (a[0] as u32) > (b[0] as u32)
    } else {
        lex_greater(a.drop_first(), b.drop_first())
    }
}

/// Whether `a` comes after `b` in lexicographic order of characters.
pub fn str_greater(a: &str, b: &str) -> (r: bool)
    ensures
        r == lex_greater(a@, b@),
{
    let la = a.unicode_len();
    let lb = b.unicode_len();
    let mut i: usize = 0;
    proof {
        assert(a@.skip(0) =~= a@);
        assert(b@.skip(0) =~= b@);
    }
    while i < la && i < lb
        invariant
            la == a@.len(),
            lb == b@.len(),
            0 <= i <= la,
            i <= lb,
            lex_greater(a@, b@) == lex_greater(a@.skip(i as int), b@.skip(i as int)),
        decreases la - i,
    {
        let ca = a.get_char(i);
        let cb = b.get_char(i);
        if ca != cb {
            return (ca as u32) > (cb as u32);
        }
        proof {
            assert(a@.skip(i as int).drop_first() =~= a@.skip(i + 1));
            assert(b@.skip(i as int).drop_first() =~= b@.skip(i + 1));
        }
        i = i + 1;
    }
    i < la
}

/// No two names each come after the other.
pub proof fn lemma_lex_asymmetric(a: Seq<char>, b: Seq<char>)
    ensures
        lex_greater(a, b) ==> !lex_greater(b, a),
    decreases a.len(),
{
    if a.len() > 0 && b.len() > 0 && a[0] == b[0] {
        lemma_lex_asymmetric(a.drop_first(), b.drop_first());
    }
}

/// The indices of `names`, ordered so that no name comes after the next one.
pub fn name_order(names: &Vec<String>) -> (r: Vec<usize>)
    ensures
        r@.len() == names@.len(),
        forall|i: int| 0 <= i < r@.len() ==> #[trigger] r@[i] < names@.len(),
        forall|i: int, j: int| 0 <= i < j < r@.len() ==> r@[i] != r@[j],
        forall|i: int|
            0 <= i < r@.len() - 1 ==> !lex_greater(
                names@[#[trigger] r@[i] as int]@,
                names@[r@[i + 1] as int]@,
            ),
{
    let n = names.len();
    let mut order: Vec<usize> = Vec::new();
    for k in 0..n
        invariant
            n == names@.len(),
            order@.len() == k,
            forall|i: int| 0 <= i < order@.len() ==> #[trigger] order@[i] < k,
            forall|i: int, j: int| 0 <= i < j < order@.len() ==> order@[i] != order@[j],
            forall|i: int|
                0 <= i < order@.len() - 1 ==> !lex_greater(
                    names@[#[trigger] order@[i] as int]@,
                    names@[order@[i + 1] as int]@,
                ),
    {
        let mut p: usize = order.len();
        while p > 0 && str_greater(names[order[p - 1]].as_str(), names[k].as_str())
            invariant
                n == names@.len(),
                k < n,
                p <= order@.len(),
                forall|i: int| 0 <= i < order@.len() ==> #[trigger] order@[i] < k,
                forall|t: int|
                    p <= t < order@.len() ==> lex_greater(names@[#[trigger] order@[t] as int]@, names@[k as int]@),
            decreases p,
        {
            p = p - 1;
        }
        let ghost before = order@;
        proof {
            if p < before.len() {
                lemma_lex_asymmetric(names@[before[p as int] as int]@, names@[k as int]@);
            }
        }
        order.insert(p, k);
        proof {
            assert forall|i: int| 0 <= i < order@.len() - 1 implies !lex_greater(
                names@[#[trigger] order@[i] as int]@,
                names@[order@[i + 1] as int]@,
            ) by {
                if i < p as int - 1 {
                    assert(order@[i] == before[i] && order@[i + 1] == before[i + 1]);
                } else if i == p as int - 1 {
                    assert(order@[i] == before[i] && order@[i + 1] == k);
                } else if i == p as int {
                    assert(order@[i] == k && order@[i + 1] == before[i]);
                } else {
                    assert(order@[i] == before[i - 1] && order@[i + 1] == before[i]);
                }
            }
            assert forall|i: int, j: int| 0 <= i < j < order@.len() implies order@[i] != order@[j] by {
                if i < p && j < p {
                    assert(order@[i] == before[i] && order@[j] == before[j]);
                } else if i < p && j > p {
                    assert(order@[i] == before[i] && order@[j] == before[j - 1]);
                } else if i > p {
                    assert(order@[i] == before[i - 1] && order@[j] == before[j - 1]);
                } else if i == p {
                    assert(order@[j] == before[j - 1]);
                } else {
                    assert(j == p);
                    assert(order@[i] == before[i]);
                }
            }
            assert forall|i: int| 0 <= i < order@.len() implies #[trigger] order@[i] < k + 1 by {
                if i < p {
                    assert(order@[i] == before[i]);
                } else if i > p {
                    assert(order@[i] == before[i - 1]);
                }
            }
        }
    }
    order
}

} // verus!
