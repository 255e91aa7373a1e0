//! User-assigned metadata: label sets and property maps, and the merge
//! policy used when a document is archived. Labels merge by set union;
//! properties merge with incoming keys overriding existing ones.

use vstd::prelude::*;

verus! {

/// Whether all elements of `s` are distinct.
pub open spec fn unique_seq<A>(s: Seq<A>) -> bool {
    forall|i: int, j: int| 0 <= i < j < s.len() ==> s[i] != s[j]
}

/// Whether all keys of the property list `s` are distinct.
pub open spec fn unique_keys(s: Seq<(Seq<char>, Seq<char>)>) -> bool {
    forall|i: int, j: int| 0 <= i < j < s.len() ==> s[i].0 != s[j].0
}

/// The property map described by a key/value list; on a duplicate key the
/// later pair wins.
pub open spec fn props_map(s: Seq<(Seq<char>, Seq<char>)>) -> Map<Seq<char>, Seq<char>>
    decreases s.len(),
{
    if s.len() == 0 {
        Map::empty()
    } else {
        props_map(s.drop_last()).insert(s.last().0, s.last().1)
    }
}

/// Appending a pair updates the property map at that key.
pub proof fn lemma_props_map_push(s: Seq<(Seq<char>, Seq<char>)>, p: (Seq<char>, Seq<char>))
    ensures
        props_map(s.push(p)) == props_map(s).insert(p.0, p.1),
{
    assert(s.push(p).drop_last() =~= s);
    assert(s.push(p).last() == p);
}

/// Replacing the pair at `j` by one with the same key updates the property
/// map at that key.
pub proof fn lemma_props_map_update(s: Seq<(Seq<char>, Seq<char>)>, j: int, v: Seq<char>)
    requires
        unique_keys(s),
        0 <= j < s.len(),
    ensures
        props_map(s.update(j, (s[j].0, v))) == props_map(s).insert(s[j].0, v),
    decreases s.len(),
{
    let t = s.update(j, (s[j].0, v));
    if j == s.len() - 1 {
        assert(t.drop_last() =~= s.drop_last());
        assert(props_map(t) == props_map(s.drop_last()).insert(s[j].0, v));
        assert(props_map(s.drop_last()).insert(s[j].0, s[j].1).insert(s[j].0, v)
            =~= props_map(s.drop_last()).insert(s[j].0, v));
    } else {
        assert(t.drop_last() =~= s.drop_last().update(j, (s[j].0, v)));
        assert(s.drop_last()[j] == s[j]);
        lemma_props_map_update(s.drop_last(), j, v);
        assert(t.last() == s.last());
        assert(s[j].0 != s.last().0);
        assert(props_map(s.drop_last()).insert(s[j].0, v).insert(s.last().0, s.last().1)
            =~= props_map(s.drop_last()).insert(s.last().0, s.last().1).insert(s[j].0, v));
    }
}

/// Appending an element to a sequence inserts it into the sequence's set.
pub proof fn lemma_to_set_push<A>(s: Seq<A>, x: A)
    ensures
        s.push(x).to_set() == s.to_set().insert(x),
{
    assert(s.push(x).to_set() =~= s.to_set().insert(x)) by {
        assert forall|y: A| s.push(x).contains(y) implies s.contains(y) || y == x by {
            let j = choose|j: int| 0 <= j < s.push(x).len() && s.push(x)[j] == y;
            if j < s.len() {
                assert(s[j] == y);
            }
        }
        assert forall|y: A| s.contains(y) implies s.push(x).contains(y) by {
            let j = choose|j: int| 0 <= j < s.len() && s[j] == y;
            assert(s.push(x)[j] == y);
        }
        assert(s.push(x)[s.len() as int] == x);
    }
}

/// One more element of a prefix inserts that element into the prefix's set.
pub proof fn lemma_subrange_to_set_step<A>(s: Seq<A>, i: int)
    requires
        0 <= i < s.len(),
    ensures
        s.subrange(0, i + 1).to_set() == s.subrange(0, i).to_set().insert(s[i]),
{
    assert(s.subrange(0, i + 1) =~= s.subrange(0, i).push(s[i]));
    lemma_to_set_push(s.subrange(0, i), s[i]);
}

/// Whether the string vector `v` holds a string whose characters equal `s`.
pub fn contains_string(v: &Vec<String>, s: &String) -> (r: bool)
    ensures
        r == v.deep_view().contains(s@),
{
    let mut i: usize = 0;
    while i < v.len()
        invariant
            0 <= i <= v@.len(),
            forall|j: int| 0 <= j < i ==> v.deep_view()[j] != s@,
        decreases v@.len() - i,
    {
        if v[i] == *s {
            proof {
                assert(v.deep_view()[i as int] == s@);
            }
            return true;
        }
        i = i + 1;
    }
    proof {
        if v.deep_view().contains(s@) {
            let j = choose|j: int| 0 <= j < v.deep_view().len() && v.deep_view()[j] == s@;
        }
    }
    false
}

fn find_key(v: &Vec<(String, String)>, k: &String) -> (r: Option<usize>)
    ensures
        match r {
            Some(i) => 0 <= i < v@.len() && v.deep_view()[i as int].0 == k@,
            None => forall|j: int| 0 <= j < v@.len() ==> v.deep_view()[j].0 != k@,
        },
{
    let mut i: usize = 0;
    while i < v.len()
        invariant
            0 <= i <= v@.len(),
            forall|j: int| 0 <= j < i ==> v.deep_view()[j].0 != k@,
        decreases v@.len() - i,
    {
        if v[i].0 == *k {
            proof {
                assert(v.deep_view()[i as int].0 == k@);
            }
            return Some(i);
        }
        i = i + 1;
    }
    None
}

/// Merges incoming labels into an existing label list: set union, so labels
/// already present are not duplicated.
pub fn merge_labels(existing: &mut Vec<String>, incoming: &Vec<String>)
    requires
        unique_seq(old(existing).deep_view()),
    ensures
        unique_seq(final(existing).deep_view()),
        final(existing).deep_view().to_set() == old(existing).deep_view().to_set().union(
            incoming.deep_view().to_set(),
        ),
{
    let mut i: usize = 0;
    proof {
        assert(existing.deep_view().to_set() =~= old(existing).deep_view().to_set().union(
            incoming.deep_view().subrange(0, 0).to_set(),
        ));
    }
    while i < incoming.len()
        invariant
            0 <= i <= incoming@.len(),
            unique_seq(existing.deep_view()),
            existing.deep_view().to_set() == old(existing).deep_view().to_set().union(
                incoming.deep_view().subrange(0, i as int).to_set(),
            ),
        decreases incoming@.len() - i,
    {
        let ghost pre = existing.deep_view();
        let ghost inc = incoming.deep_view();
        let l = &incoming[i];
        proof {
            assert(l@ == inc[i as int]);
            lemma_subrange_to_set_step(inc, i as int);
        }
        let present = contains_string(existing, l);
        if !present {
            existing.push(l.clone());
            proof {
                let dv = existing.deep_view();
                assert(dv =~= pre.push(l@));
                lemma_to_set_push(pre, l@);
                assert forall|a: int, b: int| 0 <= a < b < dv.len() implies dv[a] != dv[b] by {
                    if b == dv.len() - 1 {
                        assert(!pre.contains(l@));
                        assert(pre[a] != l@);
                    } else {
                        assert(dv[a] == pre[a]);
                        assert(dv[b] == pre[b]);
                    }
                }
                assert(dv.to_set() =~= old(existing).deep_view().to_set().union(
                    inc.subrange(0, i as int + 1).to_set(),
                ));
            }
        } else {
            proof {
                assert(existing.deep_view().to_set().contains(l@));
                assert(existing.deep_view().to_set() =~= old(existing).deep_view().to_set().union(
                    inc.subrange(0, i as int + 1).to_set(),
                ));
            }
        }
        i = i + 1;
    }
    proof {
        assert(incoming.deep_view().subrange(0, incoming.deep_view().len() as int)
            =~= incoming.deep_view());
    }
}

/// Merges incoming properties into an existing property list: an incoming
/// key overrides the existing value, and within the incoming list the last
/// pair for a key wins.
pub fn merge_properties(existing: &mut Vec<(String, String)>, incoming: &Vec<(String, String)>)
    requires
        unique_keys(old(existing).deep_view()),
    ensures
        unique_keys(final(existing).deep_view()),
        props_map(final(existing).deep_view()) == props_map(old(existing).deep_view())
            .union_prefer_right(props_map(incoming.deep_view())),
{
    let mut i: usize = 0;
    proof {
        assert(props_map(incoming.deep_view().subrange(0, 0)) =~= Map::<Seq<char>, Seq<char>>::empty());
        assert(props_map(existing.deep_view()) =~= props_map(old(existing).deep_view())
            .union_prefer_right(props_map(incoming.deep_view().subrange(0, 0))));
    }
    while i < incoming.len()
        invariant
            0 <= i <= incoming@.len(),
            unique_keys(existing.deep_view()),
            props_map(existing.deep_view()) == props_map(old(existing).deep_view())
                .union_prefer_right(props_map(incoming.deep_view().subrange(0, i as int))),
        decreases incoming@.len() - i,
    {
        let ghost pre = existing.deep_view();
        let ghost prev_merge = props_map(incoming.deep_view().subrange(0, i as int));
        let k = incoming[i].0.clone();
        let v = incoming[i].1.clone();
        proof {
            assert(k@ == incoming.deep_view()[i as int].0);
            assert(v@ == incoming.deep_view()[i as int].1);
        }
        match find_key(existing, &k) {
            Some(j) => {
                proof {
                    lemma_props_map_update(pre, j as int, v@);
                }
                existing[j] = (k, v);
                proof {
                    assert(existing.deep_view() =~= pre.update(j as int, (pre[j as int].0, v@)));
                    assert forall|a: int, b: int|
                        0 <= a < b < existing.deep_view().len()
                        implies existing.deep_view()[a].0 != existing.deep_view()[b].0 by {
                        assert(existing.deep_view()[a].0 == pre[a].0);
                        assert(existing.deep_view()[b].0 == pre[b].0);
                    }
                }
            },
            None => {
                proof {
                    lemma_props_map_push(pre, (k@, v@));
                }
                existing.push((k, v));
                proof {
                    assert(existing.deep_view() =~= pre.push((k@, v@)));
                    assert forall|a: int, b: int|
                        0 <= a < b < existing.deep_view().len()
                        implies existing.deep_view()[a].0 != existing.deep_view()[b].0 by {
                        if b == existing.deep_view().len() - 1 {
                            assert(pre[a].0 != k@);
                        } else {
                            assert(existing.deep_view()[a] == pre[a]);
                            assert(existing.deep_view()[b] == pre[b]);
                        }
                    }
                }
            },
        }
        proof {
            assert(incoming.deep_view().subrange(0, i as int + 1)
                =~= incoming.deep_view().subrange(0, i as int).push(
                    incoming.deep_view()[i as int]));
            lemma_props_map_push(
                incoming.deep_view().subrange(0, i as int),
                incoming.deep_view()[i as int],
            );
            assert(props_map(existing.deep_view())
                =~= props_map(old(existing).deep_view()).union_prefer_right(
                    props_map(incoming.deep_view().subrange(0, i as int + 1))));
        }
        i = i + 1;
    }
    proof {
        assert(incoming.deep_view().subrange(0, incoming.deep_view().len() as int)
            =~= incoming.deep_view());
    }
}

/// Law: merging metadata twice accumulates it — labels keep the union of
/// both merges, and for a property key supplied both times the later value
/// wins.
pub proof fn lemma_merge_accumulates(
    labels: Set<Seq<char>>,
    l1: Set<Seq<char>>,
    l2: Set<Seq<char>>,
    props: Map<Seq<char>, Seq<char>>,
    p1: Map<Seq<char>, Seq<char>>,
    p2: Map<Seq<char>, Seq<char>>,
)
    ensures
        labels.union(l1).union(l2) == labels.union(l1.union(l2)),
        l1.subset_of(labels.union(l1).union(l2)),
        l2.subset_of(labels.union(l1).union(l2)),
        forall|k: Seq<char>| p2.contains_key(k)
            ==> props.union_prefer_right(p1).union_prefer_right(p2).contains_key(k)
                && props.union_prefer_right(p1).union_prefer_right(p2)[k] == p2[k],
        forall|k: Seq<char>| p1.contains_key(k) && !p2.contains_key(k)
            ==> props.union_prefer_right(p1).union_prefer_right(p2).contains_key(k)
                && props.union_prefer_right(p1).union_prefer_right(p2)[k] == p1[k],
{
    assert(labels.union(l1).union(l2) =~= labels.union(l1.union(l2)));
}

} // verus!
