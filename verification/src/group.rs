use vstd::prelude::*;

use crate::text::{lex_lt, lemma_lex_transitive, lemma_lex_trichotomy};
use crate::{author_list, license_key, Dependency};

verus! {

/// Key sequences in strictly increasing lexicographic order.
pub open spec fn strictly_sorted(ks: Seq<Seq<char>>) -> bool {
    forall|i: int, j: int| 0 <= i < j < ks.len() ==> lex_lt(ks[i], ks[j])
}

/// The license key of each record, in input order.
pub open spec fn license_keys(deps: Seq<Dependency>) -> Seq<Seq<char>> {
    deps.map_values(|d: Dependency| license_key(d))
}

/// `x` placed into an already sorted, duplicate-free key sequence:
/// left where it already stands, before the first larger key otherwise.
pub open spec fn insert_key(ks: Seq<Seq<char>>, x: Seq<char>) -> Seq<Seq<char>>
    decreases ks.len(),
{
    if ks.len() == 0 {
        seq![x]
    } else if x == ks[0] {
        ks
    } else if lex_lt(x, ks[0]) {
        seq![x] + ks
    } else {
        seq![ks[0]] + insert_key(ks.drop_first(), x)
    }
}

/// The distinct members of `m`, in increasing lexicographic order:
/// the bucket keys of the grouped report, and a deduplicated author line.
pub open spec fn sorted_distinct(m: Seq<Seq<char>>) -> Seq<Seq<char>>
    decreases m.len(),
{
    if m.len() == 0 {
        Seq::<Seq<char>>::empty()
    } else {
        insert_key(sorted_distinct(m.drop_last()), m.last())
    }
}

/// The ordered list of license groups the grouped report walks over.
pub open spec fn key_list(deps: Seq<Dependency>) -> Seq<Seq<char>> {
    sorted_distinct(license_keys(deps))
}

/// The records of `deps` whose license key is `k`, in input order.
pub open spec fn members_of(deps: Seq<Dependency>, k: Seq<char>) -> Seq<Dependency>
    decreases deps.len(),
{
    if deps.len() == 0 {
        Seq::<Dependency>::empty()
    } else if license_key(deps.last()) == k {
        members_of(deps.drop_last(), k).push(deps.last())
    } else {
        members_of(deps.drop_last(), k)
    }
}

pub proof fn lemma_insert_key_props(ks: Seq<Seq<char>>, x: Seq<char>)
    requires
        strictly_sorted(ks),
    ensures
        strictly_sorted(insert_key(ks, x)),
        forall|y: Seq<char>| insert_key(ks, x).contains(y) <==> ks.contains(y) || y == x,
        insert_key(ks, x).len() == if ks.contains(x) {
            ks.len()
        } else {
            ks.len() + 1
        },
    decreases ks.len(),
{
    let r = insert_key(ks, x);
    if ks.len() == 0 {
        assert(r =~= seq![x]);
        assert(r[0] == x);
        assert(r.contains(x));
        assert(forall|y: Seq<char>| r.contains(y) ==> y == x);
        assert(!ks.contains(x));
    } else if x == ks[0] {
        assert(ks.contains(x)) by {
            assert(ks[0] == x);
        }
        assert(forall|y: Seq<char>| r.contains(y) <==> ks.contains(y) || y == x);
    } else if lex_lt(x, ks[0]) {
        assert(r =~= seq![x] + ks);
        assert forall|i: int, j: int| 0 <= i < j < r.len() implies lex_lt(r[i], r[j]) by {
            if i == 0 {
                if j == 1 {
                    assert(r[j] == ks[0]);
                } else {
                    lemma_lex_transitive(x, ks[0], ks[j - 1]);
                }
            }
        }
        assert forall|y: Seq<char>| r.contains(y) implies ks.contains(y) || y == x by {
            let w = choose|w: int| 0 <= w < r.len() && r[w] == y;
            if w > 0 {
                assert(ks[w - 1] == y);
            }
        }
        assert forall|y: Seq<char>| ks.contains(y) || y == x implies r.contains(y) by {
            if y == x {
                assert(r[0] == y);
            } else {
                let w = choose|w: int| 0 <= w < ks.len() && ks[w] == y;
                assert(r[w + 1] == y);
            }
        }
        assert(!ks.contains(x)) by {
            if ks.contains(x) {
                let w = choose|w: int| 0 <= w < ks.len() && ks[w] == x;
                if w == 0 {
                    lemma_lex_trichotomy(x, ks[0]);
                } else {
                    lemma_lex_trichotomy(x, ks[w]);
                    assert(lex_lt(ks[0], ks[w]));
                    lemma_lex_transitive(x, ks[0], ks[w]);
                }
            }
        }
    } else {
        lemma_lex_trichotomy(x, ks[0]);
        assert(lex_lt(ks[0], x));
        let t = ks.drop_first();
        assert(strictly_sorted(t)) by {
            assert(forall|i: int, j: int|
                0 <= i < j < t.len() ==> t[i] == ks[i + 1] && t[j] == ks[j + 1]);
        }
        lemma_insert_key_props(t, x);
        let rt = insert_key(t, x);
        assert(r =~= seq![ks[0]] + rt);
        assert forall|i: int, j: int| 0 <= i < j < r.len() implies lex_lt(r[i], r[j]) by {
            if i == 0 {
                assert(r[j] == rt[j - 1]);
                assert(rt.contains(rt[j - 1]));
                let y = rt[j - 1];
                if y == x {
                } else {
                    assert(t.contains(y));
                    let w = choose|w: int| 0 <= w < t.len() && t[w] == y;
                    assert(t[w] == ks[w + 1]);
                    assert(lex_lt(ks[0], ks[w + 1]));
                }
            } else {
                assert(r[i] == rt[i - 1]);
                assert(r[j] == rt[j - 1]);
            }
        }
        assert forall|y: Seq<char>| r.contains(y) implies ks.contains(y) || y == x by {
            let w = choose|w: int| 0 <= w < r.len() && r[w] == y;
            if w == 0 {
                assert(ks[0] == y);
            } else {
                assert(rt[w - 1] == y);
                assert(rt.contains(y));
                if t.contains(y) {
                    let v = choose|v: int| 0 <= v < t.len() && t[v] == y;
                    assert(ks[v + 1] == y);
                }
            }
        }
        assert forall|y: Seq<char>| ks.contains(y) || y == x implies r.contains(y) by {
            if ks.contains(y) {
                let w = choose|w: int| 0 <= w < ks.len() && ks[w] == y;
                if w == 0 {
                    assert(r[0] == y);
                } else {
                    assert(t[w - 1] == y);
                    assert(t.contains(y));
                    assert(rt.contains(y));
                    let v = choose|v: int| 0 <= v < rt.len() && rt[v] == y;
                    assert(r[v + 1] == y);
                }
            } else {
                assert(rt.contains(y));
                let v = choose|v: int| 0 <= v < rt.len() && rt[v] == y;
                assert(r[v + 1] == y);
            }
        }
        assert(ks.contains(x) <==> t.contains(x)) by {
            if ks.contains(x) {
                let w = choose|w: int| 0 <= w < ks.len() && ks[w] == x;
                lemma_lex_trichotomy(x, ks[0]);
                assert(w != 0);
                assert(t[w - 1] == x);
            }
            if t.contains(x) {
                let w = choose|w: int| 0 <= w < t.len() && t[w] == x;
                assert(ks[w + 1] == x);
            }
        }
    }
}

/// Every sorted-distinct list is strictly sorted and holds exactly
/// the members of the multiset it was built from.
pub proof fn lemma_sorted_distinct_props(m: Seq<Seq<char>>)
    ensures
        strictly_sorted(sorted_distinct(m)),
        forall|y: Seq<char>| sorted_distinct(m).contains(y) <==> m.contains(y),
    decreases m.len(),
{
    if m.len() > 0 {
        let t = m.drop_last();
        lemma_sorted_distinct_props(t);
        lemma_insert_key_props(sorted_distinct(t), m.last());
        assert forall|y: Seq<char>| m.contains(y) implies sorted_distinct(m).contains(y) by {
            let w = choose|w: int| 0 <= w < m.len() && m[w] == y;
            if w < m.len() - 1 {
                assert(t[w] == y);
                assert(t.contains(y));
            }
        }
        assert forall|y: Seq<char>| sorted_distinct(m).contains(y) implies m.contains(y) by {
            if y != m.last() {
                assert(t.contains(y));
                let w = choose|w: int| 0 <= w < t.len() && t[w] == y;
                assert(m[w] == y);
            } else {
                assert(m[m.len() - 1] == y);
            }
        }
    }
}

/// Strictly sorted keys never repeat.
pub proof fn lemma_sorted_distinct_no_dups(ks: Seq<Seq<char>>)
    requires
        strictly_sorted(ks),
    ensures
        forall|i: int, j: int| 0 <= i < ks.len() && 0 <= j < ks.len() && i != j ==> ks[i] != ks[j],
{
    assert forall|i: int, j: int|
        0 <= i < ks.len() && 0 <= j < ks.len() && i != j implies ks[i] != ks[j] by {
        if i < j {
            lemma_lex_trichotomy(ks[i], ks[j]);
        } else {
            lemma_lex_trichotomy(ks[j], ks[i]);
        }
    }
}

/// Appending a record extends exactly its own license bucket.
pub proof fn lemma_members_push(deps: Seq<Dependency>, d: Dependency, k: Seq<char>)
    ensures
        members_of(deps.push(d), k) == if license_key(d) == k {
            members_of(deps, k).push(d)
        } else {
            members_of(deps, k)
        },
{
    let p = deps.push(d);
    assert(p.drop_last() =~= deps);
    assert(p.last() == d);
}

/// A key that no record carries has an empty bucket.
pub proof fn lemma_members_absent(deps: Seq<Dependency>, k: Seq<char>)
    requires
        !license_keys(deps).contains(k),
    ensures
        members_of(deps, k) == Seq::<Dependency>::empty(),
    decreases deps.len(),
{
    if deps.len() > 0 {
        let t = deps.drop_last();
        assert(license_key(deps.last()) != k) by {
            assert(license_keys(deps)[deps.len() - 1] == license_key(deps.last()));
            if license_key(deps.last()) == k {
                assert(license_keys(deps).contains(k));
            }
        }
        assert(!license_keys(t).contains(k)) by {
            if license_keys(t).contains(k) {
                let w = choose|w: int| 0 <= w < t.len() && license_keys(t)[w] == k;
                assert(license_keys(t)[w] == license_key(t[w]));
                assert(license_keys(deps)[w] == license_key(deps[w]));
                assert(t[w] == deps[w]);
                assert(license_keys(deps).contains(k));
            }
        }
        lemma_members_absent(t, k);
    }
}

/// Every record of a bucket carries that bucket's key.
pub proof fn lemma_members_key(deps: Seq<Dependency>, k: Seq<char>)
    ensures
        forall|j: int|
            0 <= j < members_of(deps, k).len() ==> license_key(members_of(deps, k)[j]) == k,
    decreases deps.len(),
{
    if deps.len() > 0 {
        let t = deps.drop_last();
        lemma_members_key(t, k);
        let ms = members_of(deps, k);
        if license_key(deps.last()) == k {
            assert(ms == members_of(t, k).push(deps.last()));
        } else {
            assert(ms == members_of(t, k));
        }
        assert forall|j: int| 0 <= j < ms.len() implies license_key(ms[j]) == k by {
            if license_key(deps.last()) == k {
                if j < ms.len() - 1 {
                    assert(ms[j] == members_of(t, k)[j]);
                } else {
                    assert(ms[j] == deps.last());
                }
            }
        }
    }
}

/// The license keys of `deps` with one more record at the end.
pub proof fn lemma_license_keys_push(deps: Seq<Dependency>, d: Dependency)
    ensures
        license_keys(deps.push(d)) == license_keys(deps).push(license_key(d)),
        key_list(deps.push(d)) == insert_key(key_list(deps), license_key(d)),
{
    assert(license_keys(deps.push(d)) =~= license_keys(deps).push(license_key(d)));
    let m = license_keys(deps).push(license_key(d));
    assert(m.drop_last() =~= license_keys(deps));
    assert(m.last() == license_key(d));
}

/// One bucket of the grouped report: a license string and the records
/// keyed by it, in input order.
pub struct LicenseGroup {
    pub license: String,
    pub members: Vec<Dependency>,
}

/// The license string of each group, in report order.
pub open spec fn group_keys(gs: Seq<LicenseGroup>) -> Seq<Seq<char>> {
    gs.map_values(|g: LicenseGroup| g.license@)
}

/// Finds where `key` belongs among the sorted group keys: the slot that
/// already carries it, or the slot a new group for it must take.
fn find_slot(groups: &Vec<LicenseGroup>, key: &String) -> (res: (usize, bool))
    requires
        strictly_sorted(group_keys(groups@)),
    ensures
        res.0 <= groups@.len(),
        res.1 ==> res.0 < groups@.len() && group_keys(groups@)[res.0 as int] == key@
            && insert_key(group_keys(groups@), key@) == group_keys(groups@),
        !res.1 ==> !group_keys(groups@).contains(key@) && insert_key(group_keys(groups@), key@)
            == group_keys(groups@).insert(res.0 as int, key@),
{
    let ghost ks = group_keys(groups@);
    let glen = groups.len();
    let mut j: usize = 0;
    proof {
        assert(ks.take(0) + insert_key(ks.skip(0), key@) =~= insert_key(ks, key@)) by {
            assert(ks.skip(0) =~= ks);
            assert(ks.take(0) + insert_key(ks, key@) =~= insert_key(ks, key@));
        }
    }
    while j < glen
        invariant
            j <= glen,
            glen == groups@.len(),
            ks == group_keys(groups@),
            strictly_sorted(ks),
            insert_key(ks, key@) == ks.take(j as int) + insert_key(ks.skip(j as int), key@),
            forall|l: int| 0 <= l < j ==> ks[l] != key@ && lex_lt(ks[l], key@),
        decreases glen - j,
    {
        proof {
            assert(ks[j as int] == groups@[j as int].license@);
            assert(ks.skip(j as int)[0] == ks[j as int]);
            assert(ks.skip(j as int).len() == ks.len() - j);
        }
        if groups[j].license == *key {
            proof {
                assert(insert_key(ks.skip(j as int), key@) == ks.skip(j as int));
                assert(ks.take(j as int) + ks.skip(j as int) =~= ks);
            }
            return (j, true);
        }
        if crate::text::str_lt(key.as_str(), groups[j].license.as_str()) {
            proof {
                assert(lex_lt(key@, ks[j as int]));
                assert(insert_key(ks.skip(j as int), key@) == seq![key@] + ks.skip(j as int));
                assert(ks.take(j as int) + (seq![key@] + ks.skip(j as int)) =~= ks.insert(
                    j as int,
                    key@,
                ));
                assert forall|l: int| 0 <= l < ks.len() implies ks[l] != key@ by {
                    if l == j {
                        lemma_lex_trichotomy(key@, ks[l]);
                    } else if l > j {
                        assert(lex_lt(ks[j as int], ks[l]));
                        lemma_lex_transitive(key@, ks[j as int], ks[l]);
                        lemma_lex_trichotomy(key@, ks[l]);
                    }
                }
                assert(!ks.contains(key@));
            }
            return (j, false);
        }
        proof {
            lemma_lex_trichotomy(key@, ks[j as int]);
            assert(lex_lt(ks[j as int], key@));
            assert(insert_key(ks.skip(j as int), key@) == seq![ks[j as int]] + insert_key(
                ks.skip(j as int).drop_first(),
                key@,
            ));
            assert(ks.skip(j as int).drop_first() =~= ks.skip(j + 1));
            assert(ks.take(j as int) + (seq![ks[j as int]] + insert_key(ks.skip(j + 1), key@))
                =~= ks.take(j + 1) + insert_key(ks.skip(j + 1), key@));
        }
        j = j + 1;
    }
    proof {
        assert(ks.skip(glen as int).len() == 0);
        assert(insert_key(ks.skip(glen as int), key@) == seq![key@]);
        assert(ks.take(glen as int) + seq![key@] =~= ks.insert(glen as int, key@));
        assert forall|l: int| 0 <= l < ks.len() implies ks[l] != key@ by {}
        assert(!ks.contains(key@));
    }
    (glen, false)
}

/// Buckets the records by license key, as the grouped report shows them:
/// groups in increasing key order, each holding its records in input order.
pub fn group_dependencies(deps: Vec<Dependency>) -> (groups: Vec<LicenseGroup>)
    ensures
        group_keys(groups@) == key_list(deps@),
        forall|j: int|
            0 <= j < groups@.len() ==> (#[trigger] groups@[j]).members@ == members_of(
                deps@,
                groups@[j].license@,
            ),
{
    let ghost orig = deps@;
    let mut rest = deps;
    let mut groups: Vec<LicenseGroup> = Vec::new();
    let ghost mut i: int = 0;
    proof {
        assert(orig.take(0) =~= Seq::<Dependency>::empty());
        assert(group_keys(groups@) =~= key_list(orig.take(0)));
        assert(rest@ =~= orig.skip(0));
    }
    while rest.len() > 0
        invariant
            0 <= i <= orig.len(),
            rest@ == orig.skip(i),
            group_keys(groups@) == key_list(orig.take(i)),
            strictly_sorted(group_keys(groups@)),
            forall|j: int|
                0 <= j < groups@.len() ==> (#[trigger] groups@[j]).members@ == members_of(
                    orig.take(i),
                    groups@[j].license@,
                ),
        decreases rest@.len(),
    {
        proof {
            assert(orig.skip(i).len() == orig.len() - i);
        }
        let d = rest.remove(0);
        proof {
            assert(d == orig.skip(i)[0]);
            assert(d == orig[i]);
            assert(rest@ =~= orig.skip(i + 1));
        }
        let key: String = match &d.license {
            Some(l) => l.clone(),
            None => "N/A".to_owned(),
        };
        proof {
            assert(key@ == license_key(d));
        }
        let ghost ks = group_keys(groups@);
        let ghost taken = orig.take(i);
        let ghost taken1 = orig.take(i + 1);
        proof {
            assert(taken1 =~= taken.push(d));
            lemma_license_keys_push(taken, d);
            assert(key_list(taken1) == insert_key(ks, key@));
            lemma_sorted_distinct_no_dups(ks);
        }
        let (slot, matched) = find_slot(&groups, &key);
        let ghost gs0 = groups@;
        let ghost s = slot as int;
        if matched {
            let mut g = groups.remove(slot);
            g.members.push(d);
            let ghost g2 = g;
            groups.insert(slot, g);
            proof {
                let r1 = gs0.remove(s);
                gs0.remove_ensures(s);
                r1.insert_ensures(s, g2);
                assert(groups@.len() == gs0.len());
                assert forall|l: int| 0 <= l < groups@.len() implies groups@[l] == (if l == s {
                    g2
                } else {
                    gs0[l]
                }) by {
                    if l < s {
                        assert(groups@[l] == r1[l]);
                    } else if l > s {
                        assert(groups@[l] == r1[l - 1]);
                        assert(r1[l - 1] == gs0[l]);
                    }
                }
                assert(g2.license == gs0[s].license);
                assert(g2.members@ == gs0[s].members@.push(d));
                assert(group_keys(groups@) =~= ks) by {
                    assert(forall|l: int|
                        0 <= l < groups@.len() ==> group_keys(groups@)[l]
                            == groups@[l].license@);
                }
                assert(group_keys(groups@) == key_list(taken1));
                assert(ks[s] == key@);
                assert forall|j: int| 0 <= j < groups@.len() implies (#[trigger] groups@[j]).members@
                    == members_of(taken1, groups@[j].license@) by {
                    lemma_members_push(taken, d, groups@[j].license@);
                    if j == s {
                        assert(groups@[j].license@ == key@);
                        assert(gs0[s].members@ == members_of(taken, key@));
                    } else {
                        assert(groups@[j] == gs0[j]);
                        assert(ks[j] == groups@[j].license@);
                        assert(ks[j] != ks[s]);
                    }
                }
            }
        } else {
            let mut ms: Vec<Dependency> = Vec::new();
            ms.push(d);
            let g = LicenseGroup { license: key, members: ms };
            let ghost gnew = g;
            groups.insert(slot, g);
            proof {
                assert(gnew.license@ == key@);
                assert(gnew.members@ =~= seq![d]);
                gs0.insert_ensures(s, gnew);
                ks.insert_ensures(s, key@);
                assert(groups@ == gs0.insert(s, gnew));
                assert(group_keys(groups@) =~= ks.insert(s, key@)) by {
                    assert(forall|l: int|
                        0 <= l < groups@.len() ==> group_keys(groups@)[l]
                            == groups@[l].license@);
                }
                assert(group_keys(groups@) == key_list(taken1));
                lemma_insert_key_props(ks, key@);
                assert(strictly_sorted(group_keys(groups@)));
                lemma_sorted_distinct_props(license_keys(taken));
                assert(!license_keys(taken).contains(key@));
                lemma_members_absent(taken, key@);
                assert forall|j: int| 0 <= j < groups@.len() implies (#[trigger] groups@[j]).members@
                    == members_of(taken1, groups@[j].license@) by {
                    lemma_members_push(taken, d, groups@[j].license@);
                    if j == s {
                        assert(groups@[j] == gnew);
                        assert(members_of(taken, key@).push(d) =~= seq![d]);
                    } else {
                        let l = if j < s {
                            j
                        } else {
                            j - 1
                        };
                        assert(groups@[j] == gs0[l]);
                        assert(ks[l] == groups@[j].license@);
                        assert(ks.contains(ks[l]));
                        assert(ks[l] != key@);
                        assert(gs0[l].members@ == members_of(taken, gs0[l].license@));
                    }
                }
            }
        }
        proof {
            i = i + 1;
        }
    }
    proof {
        assert(orig.skip(i).len() == 0);
        assert(i == orig.len());
        assert(orig.take(i) =~= orig);
    }
    groups
}

/// Every author of every record of `ms`, in encounter order, repeats kept.
pub open spec fn all_authors(ms: Seq<Dependency>) -> Seq<Seq<char>>
    decreases ms.len(),
{
    if ms.len() == 0 {
        Seq::<Seq<char>>::empty()
    } else {
        all_authors(ms.drop_last()) + author_list(ms.last())
    }
}

/// The deduplicated, lexicographically sorted union of the authors of
/// `ms`: the author line of one license group.
pub open spec fn author_union(ms: Seq<Dependency>) -> Seq<Seq<char>> {
    sorted_distinct(all_authors(ms))
}

/// Finds where `x` belongs in a sorted list of strings, and whether it
/// is already there.
fn find_string_slot(list: &Vec<String>, x: &String) -> (res: (usize, bool))
    requires
        strictly_sorted(list.deep_view()),
    ensures
        res.0 <= list@.len(),
        res.1 ==> insert_key(list.deep_view(), x@) == list.deep_view(),
        !res.1 ==> insert_key(list.deep_view(), x@) == list.deep_view().insert(
            res.0 as int,
            x@,
        ),
{
    let ghost ks = list.deep_view();
    let len = list.len();
    let mut j: usize = 0;
    proof {
        assert(ks.take(0) + insert_key(ks.skip(0), x@) =~= insert_key(ks, x@)) by {
            assert(ks.skip(0) =~= ks);
            assert(ks.take(0) + insert_key(ks, x@) =~= insert_key(ks, x@));
        }
    }
    while j < len
        invariant
            j <= len,
            len == list@.len(),
            ks == list.deep_view(),
            strictly_sorted(ks),
            insert_key(ks, x@) == ks.take(j as int) + insert_key(ks.skip(j as int), x@),
            forall|l: int| 0 <= l < j ==> ks[l] != x@ && lex_lt(ks[l], x@),
        decreases len - j,
    {
        proof {
            assert(ks[j as int] == list@[j as int]@);
            assert(ks.skip(j as int)[0] == ks[j as int]);
            assert(ks.skip(j as int).len() == ks.len() - j);
        }
        if list[j] == *x {
            proof {
                assert(insert_key(ks.skip(j as int), x@) == ks.skip(j as int));
                assert(ks.take(j as int) + ks.skip(j as int) =~= ks);
            }
            return (j, true);
        }
        if crate::text::str_lt(x.as_str(), list[j].as_str()) {
            proof {
                assert(lex_lt(x@, ks[j as int]));
                assert(insert_key(ks.skip(j as int), x@) == seq![x@] + ks.skip(j as int));
                assert(ks.take(j as int) + (seq![x@] + ks.skip(j as int)) =~= ks.insert(
                    j as int,
                    x@,
                ));
            }
            return (j, false);
        }
        proof {
            lemma_lex_trichotomy(x@, ks[j as int]);
            assert(lex_lt(ks[j as int], x@));
            assert(insert_key(ks.skip(j as int), x@) == seq![ks[j as int]] + insert_key(
                ks.skip(j as int).drop_first(),
                x@,
            ));
            assert(ks.skip(j as int).drop_first() =~= ks.skip(j + 1));
            assert(ks.take(j as int) + (seq![ks[j as int]] + insert_key(ks.skip(j + 1), x@))
                =~= ks.take(j + 1) + insert_key(ks.skip(j + 1), x@));
        }
        j = j + 1;
    }
    proof {
        assert(ks.skip(len as int).len() == 0);
        assert(insert_key(ks.skip(len as int), x@) == seq![x@]);
        assert(ks.take(len as int) + seq![x@] =~= ks.insert(len as int, x@));
    }
    (len, false)
}

/// Places `x` into a sorted, duplicate-free list of strings, leaving the
/// list unchanged when it is already present.
fn insert_sorted_string(list: &mut Vec<String>, x: &String)
    requires
        strictly_sorted(old(list).deep_view()),
    ensures
        final(list).deep_view() == insert_key(old(list).deep_view(), x@),
        strictly_sorted(final(list).deep_view()),
{
    let ghost ks = list.deep_view();
    proof {
        lemma_insert_key_props(ks, x@);
    }
    let (j, matched) = find_string_slot(list, x);
    if !matched {
        let c = x.clone();
        let ghost cg = c;
        let ghost olds = list@;
        list.insert(j, c);
        proof {
            olds.insert_ensures(j as int, cg);
            ks.insert_ensures(j as int, x@);
            assert(cg@ == x@);
            assert(list.deep_view() =~= ks.insert(j as int, x@)) by {
                assert(forall|l: int|
                    0 <= l < list@.len() ==> list.deep_view()[l] == list@[l]@);
            }
        }
    }
}

/// Gathers the deduplicated, sorted union of the authors of `ms`.
pub fn collect_author_union(ms: &Vec<Dependency>) -> (r: Vec<String>)
    ensures
        r.deep_view() == author_union(ms@),
{
    let mut r: Vec<String> = Vec::new();
    let mut idx: usize = 0;
    proof {
        assert(ms@.take(0) =~= Seq::<Dependency>::empty());
        assert(r.deep_view() =~= sorted_distinct(all_authors(ms@.take(0))));
    }
    while idx < ms.len()
        invariant
            idx <= ms@.len(),
            r.deep_view() == sorted_distinct(all_authors(ms@.take(idx as int))),
            strictly_sorted(r.deep_view()),
        decreases ms@.len() - idx,
    {
        let ghost processed = all_authors(ms@.take(idx as int));
        let ghost al = author_list(ms@[idx as int]);
        match &ms[idx].authors {
            Some(authors) => {
                proof {
                    assert(ms@[idx as int].authors == Some(*authors));
                    assert(al == authors.deep_view());
                    assert(al.take(0) =~= Seq::<Seq<char>>::empty());
                    assert(processed + al.take(0) =~= processed);
                }
                let alen = authors.len();
                let mut m: usize = 0;
                while m < alen
                    invariant
                        m <= alen,
                        alen == authors@.len(),
                        al == authors.deep_view(),
                        r.deep_view() == sorted_distinct(processed + al.take(m as int)),
                        strictly_sorted(r.deep_view()),
                    decreases alen - m,
                {
                    proof {
                        assert(al[m as int] == authors@[m as int]@);
                    }
                    insert_sorted_string(&mut r, &authors[m]);
                    proof {
                        let p0 = processed + al.take(m as int);
                        let p1 = processed + al.take(m + 1);
                        assert(p1 =~= p0.push(al[m as int]));
                        assert(p1.drop_last() =~= p0);
                        assert(p1.last() == al[m as int]);
                    }
                    m = m + 1;
                }
                proof {
                    assert(al.take(alen as int) =~= al);
                }
            },
            None => {
                proof {
                    assert(al =~= Seq::<Seq<char>>::empty());
                    assert(processed + al =~= processed);
                }
            },
        }
        proof {
            let t1 = ms@.take(idx + 1);
            assert(t1.drop_last() =~= ms@.take(idx as int));
            assert(t1.last() == ms@[idx as int]);
            assert(all_authors(t1) == processed + al);
            assert(processed + al.take(al.len() as int) =~= processed + al);
        }
        idx = idx + 1;
    }
    proof {
        assert(ms@.take(idx as int) =~= ms@);
    }
    r
}

} // verus!
