use vstd::prelude::*;

use crate::group::{
    all_authors, author_union, key_list, lemma_members_push, lemma_sorted_distinct_no_dups,
    lemma_sorted_distinct_props, license_keys, members_of, strictly_sorted,
};
use crate::report::{blocks_from, flat_line, flat_report, group_block, grouped_report, names_of};
use crate::style::{
    esc, esc_free, lemma_strip_clean_append, lemma_strip_styled, strip_markers, styled,
};
use crate::text::{dec_digits, digit_char, lex_lt, lemma_lex_trichotomy, spec_join};
use crate::{author_list, license_key, Dependency};

verus! {

/// The group sizes of `deps` under the keys `ks`, added up.
pub open spec fn sum_member_counts(deps: Seq<Dependency>, ks: Seq<Seq<char>>) -> nat
    decreases ks.len(),
{
    if ks.len() == 0 {
        0
    } else {
        members_of(deps, ks.first()).len() + sum_member_counts(deps, ks.drop_first())
    }
}

proof fn lemma_sum_empty(ks: Seq<Seq<char>>)
    ensures
        sum_member_counts(Seq::<Dependency>::empty(), ks) == 0,
    decreases ks.len(),
{
    if ks.len() > 0 {
        lemma_sum_empty(ks.drop_first());
    }
}

proof fn lemma_sum_push(s: Seq<Dependency>, d: Dependency, ks: Seq<Seq<char>>)
    requires
        forall|i: int, j: int|
            0 <= i < ks.len() && 0 <= j < ks.len() && i != j ==> ks[i] != ks[j],
    ensures
        sum_member_counts(s.push(d), ks) == sum_member_counts(s, ks) + (if ks.contains(
            license_key(d),
        ) {
            1nat
        } else {
            0nat
        }),
    decreases ks.len(),
{
    if ks.len() > 0 {
        let k0 = ks.first();
        let t = ks.drop_first();
        lemma_members_push(s, d, k0);
        assert(forall|i: int, j: int|
            0 <= i < t.len() && 0 <= j < t.len() && i != j ==> t[i] == ks[i + 1] && t[j] == ks[j
                + 1]);
        lemma_sum_push(s, d, t);
        let key = license_key(d);
        if k0 == key {
            assert(!t.contains(key)) by {
                if t.contains(key) {
                    let w = choose|w: int| 0 <= w < t.len() && t[w] == key;
                    assert(ks[w + 1] == key);
                    assert(ks[0] == key);
                }
            }
            assert(ks.contains(key)) by {
                assert(ks[0] == key);
            }
        } else {
            assert(ks.contains(key) <==> t.contains(key)) by {
                if ks.contains(key) {
                    let w = choose|w: int| 0 <= w < ks.len() && ks[w] == key;
                    assert(w != 0);
                    assert(t[w - 1] == key);
                }
                if t.contains(key) {
                    let w = choose|w: int| 0 <= w < t.len() && t[w] == key;
                    assert(ks[w + 1] == key);
                }
            }
        }
    }
}

proof fn lemma_sum_covers(s: Seq<Dependency>, ks: Seq<Seq<char>>)
    requires
        forall|i: int, j: int|
            0 <= i < ks.len() && 0 <= j < ks.len() && i != j ==> ks[i] != ks[j],
        forall|i: int| 0 <= i < s.len() ==> ks.contains(#[trigger] license_key(s[i])),
    ensures
        sum_member_counts(s, ks) == s.len(),
    decreases s.len(),
{
    if s.len() == 0 {
        lemma_sum_empty(ks);
        assert(s =~= Seq::<Dependency>::empty());
    } else {
        let t = s.drop_last();
        assert(forall|i: int| 0 <= i < t.len() ==> t[i] == s[i]);
        lemma_sum_covers(t, ks);
        lemma_sum_push(t, s.last(), ks);
        assert(t.push(s.last()) =~= s);
        assert(license_key(s.last()) == license_key(s[s.len() - 1]));
    }
}

proof fn lemma_member_membership(deps: Seq<Dependency>)
    ensures
        forall|i: int|
            0 <= i < deps.len() ==> members_of(deps, #[trigger] license_key(deps[i])).contains(
                deps[i],
            ),
    decreases deps.len(),
{
    if deps.len() > 0 {
        let t = deps.drop_last();
        lemma_member_membership(t);
        assert forall|i: int|
            0 <= i < deps.len() implies members_of(
            deps,
            #[trigger] license_key(deps[i]),
        ).contains(deps[i]) by {
            let k = license_key(deps[i]);
            if i < deps.len() - 1 {
                assert(t[i] == deps[i]);
                assert(members_of(t, k).contains(t[i]));
                let w = choose|w: int| 0 <= w < members_of(t, k).len() && members_of(t, k)[w]
                    == t[i];
                if license_key(deps.last()) == k {
                    assert(members_of(deps, k) == members_of(t, k).push(deps.last()));
                    assert(members_of(deps, k)[w] == t[i]);
                } else {
                    assert(members_of(deps, k) == members_of(t, k));
                }
            } else {
                assert(deps[i] == deps.last());
                assert(members_of(deps, k) == members_of(t, k).push(deps.last()));
                assert(members_of(deps, k).last() == deps.last());
            }
        }
    }
}

/// Grouped mode partitions the input exactly: the group sizes add up to
/// the number of records, every record stands in the bucket of its own
/// license key, a bucket holds only records of its key, and no key
/// appears twice.
pub proof fn lemma_grouped_partition(deps: Seq<Dependency>)
    ensures
        sum_member_counts(deps, key_list(deps)) == deps.len(),
        forall|i: int|
            0 <= i < deps.len() ==> members_of(deps, #[trigger] license_key(deps[i])).contains(
                deps[i],
            ),
        forall|k: Seq<char>, j: int|
            0 <= j < members_of(deps, k).len() ==> license_key(#[trigger] members_of(deps, k)[j])
                == k,
        forall|i: int, j: int|
            0 <= i < key_list(deps).len() && 0 <= j < key_list(deps).len() && i != j ==> key_list(
                deps,
            )[i] != key_list(deps)[j],
        forall|k: Seq<char>| #[trigger] key_list(deps).contains(k) <==> license_keys(
            deps,
        ).contains(k),
{
    lemma_sorted_distinct_props(license_keys(deps));
    lemma_sorted_distinct_no_dups(key_list(deps));
    assert forall|i: int|
        0 <= i < deps.len() implies key_list(deps).contains(#[trigger] license_key(deps[i])) by {
        assert(license_keys(deps)[i] == license_key(deps[i]));
        assert(license_keys(deps).contains(license_key(deps[i])));
    }
    lemma_sum_covers(deps, key_list(deps));
    lemma_member_membership(deps);
    assert forall|k: Seq<char>, j: int|
        0 <= j < members_of(deps, k).len() implies license_key(
        #[trigger] members_of(deps, k)[j],
    ) == k by {
        crate::group::lemma_members_key(deps, k);
    }
}

/// A record with no license field is keyed under "N/A", and so grouped
/// and printed under "N/A" in both report modes.
pub proof fn lemma_missing_license_defaults(deps: Seq<Dependency>, i: int)
    requires
        0 <= i < deps.len(),
        deps[i].license is None,
    ensures
        license_key(deps[i]) == "N/A"@,
        members_of(deps, "N/A"@).contains(deps[i]),
{
    lemma_member_membership(deps);
    assert(license_key(deps[i]) == "N/A"@);
    assert(members_of(deps, license_key(deps[i])).contains(deps[i]));
}

/// A group's author line never repeats an entry, however many of the
/// group's records share an author, and it holds exactly the authors
/// that the group's records list.
pub proof fn lemma_author_dedup(ms: Seq<Dependency>)
    ensures
        forall|i: int, j: int|
            0 <= i < author_union(ms).len() && 0 <= j < author_union(ms).len() && i != j
                ==> author_union(ms)[i] != author_union(ms)[j],
        forall|a: Seq<char>| #[trigger] author_union(ms).contains(a) <==> all_authors(
            ms,
        ).contains(a),
{
    lemma_sorted_distinct_props(all_authors(ms));
    lemma_sorted_distinct_no_dups(author_union(ms));
}

/// Grouped mode lists its groups in strictly increasing lexicographic
/// key order, one group for each distinct license key of the input.
pub proof fn lemma_group_order(deps: Seq<Dependency>)
    ensures
        strictly_sorted(key_list(deps)),
        forall|k: Seq<char>| #[trigger] key_list(deps).contains(k) <==> license_keys(
            deps,
        ).contains(k),
{
    lemma_sorted_distinct_props(license_keys(deps));
}

proof fn lemma_sorted_same_elements(s1: Seq<Seq<char>>, s2: Seq<Seq<char>>)
    requires
        strictly_sorted(s1),
        strictly_sorted(s2),
        forall|k: Seq<char>| #[trigger] s1.contains(k) <==> s2.contains(k),
    ensures
        s1 == s2,
    decreases s1.len(),
{
    if s1.len() == 0 {
        if s2.len() > 0 {
            assert(s2.contains(s2[0]));
            assert(s1.contains(s2[0]));
            assert(false);
        }
        assert(s1 =~= s2);
    } else if s2.len() == 0 {
        assert(s1.contains(s1[0]));
        assert(s2.contains(s1[0]));
        assert(false);
        assert(s1 =~= s2);
    } else {
        assert(s1.contains(s1[0]));
        assert(s2.contains(s2[0]));
        assert(s2.contains(s1[0]));
        assert(s1.contains(s2[0]));
        let w = choose|w: int| 0 <= w < s2.len() && s2[w] == s1[0];
        let v = choose|v: int| 0 <= v < s1.len() && s1[v] == s2[0];
        assert(s1[0] == s2[0]) by {
            if w > 0 && v > 0 {
                assert(lex_lt(s2[0], s2[w]));
                assert(lex_lt(s1[0], s1[v]));
                lemma_lex_trichotomy(s1[0], s2[0]);
            }
        }
        let t1 = s1.drop_first();
        let t2 = s2.drop_first();
        assert(forall|i: int| 0 <= i < t1.len() ==> t1[i] == s1[i + 1]);
        assert(forall|i: int| 0 <= i < t2.len() ==> t2[i] == s2[i + 1]);
        assert forall|k: Seq<char>| #[trigger] t1.contains(k) <==> t2.contains(k) by {
            if t1.contains(k) {
                let u = choose|u: int| 0 <= u < t1.len() && t1[u] == k;
                assert(s1[u + 1] == k);
                assert(s1.contains(k));
                assert(s2.contains(k));
                let z = choose|z: int| 0 <= z < s2.len() && s2[z] == k;
                assert(z != 0) by {
                    assert(lex_lt(s1[0], s1[u + 1]));
                    lemma_lex_trichotomy(s1[0], k);
                }
                assert(t2[z - 1] == k);
            }
            if t2.contains(k) {
                let u = choose|u: int| 0 <= u < t2.len() && t2[u] == k;
                assert(s2[u + 1] == k);
                assert(s2.contains(k));
                assert(s1.contains(k));
                let z = choose|z: int| 0 <= z < s1.len() && s1[z] == k;
                assert(z != 0) by {
                    assert(lex_lt(s2[0], s2[u + 1]));
                    lemma_lex_trichotomy(s2[0], k);
                }
                assert(t1[z - 1] == k);
            }
        }
        lemma_sorted_same_elements(t1, t2);
        assert(s1 =~= s2) by {
            assert(forall|i: int| 1 <= i < s1.len() ==> s1[i] == t1[i - 1] && s2[i] == t2[i - 1]);
        }
    }
}

/// The order of the groups does not depend on the order of the input:
/// any two inputs with the same set of license keys get the same key
/// list, in the same order.
pub proof fn lemma_key_list_canonical(d1: Seq<Dependency>, d2: Seq<Dependency>)
    requires
        forall|k: Seq<char>| #[trigger] license_keys(d1).contains(k) <==> license_keys(
            d2,
        ).contains(k),
    ensures
        key_list(d1) == key_list(d2),
{
    lemma_sorted_distinct_props(license_keys(d1));
    lemma_sorted_distinct_props(license_keys(d2));
    assert forall|k: Seq<char>| #[trigger] key_list(d1).contains(k) <==> key_list(
        d2,
    ).contains(k) by {
        assert(key_list(d1).contains(k) <==> license_keys(d1).contains(k));
        assert(key_list(d2).contains(k) <==> license_keys(d2).contains(k));
        assert(license_keys(d1).contains(k) <==> license_keys(d2).contains(k));
    }
    lemma_sorted_same_elements(key_list(d1), key_list(d2));
}


/// A record whose fields are free of the escape character, so that no
/// styling marker can hide inside its text.
pub open spec fn esc_free_dep(d: Dependency) -> bool {
    &&& esc_free(d.name@)
    &&& esc_free(d.version@)
    &&& esc_free(d.source@)
    &&& esc_free(license_key(d))
    &&& forall|i: int| 0 <= i < author_list(d).len() ==> esc_free(#[trigger] author_list(d)[i])
}

proof fn lemma_esc_free_concat(a: Seq<char>, b: Seq<char>)
    requires
        esc_free(a),
        esc_free(b),
    ensures
        esc_free(a + b),
{
    assert forall|i: int| 0 <= i < (a + b).len() implies (a + b)[i] != esc() by {
        if i < a.len() {
            assert((a + b)[i] == a[i]);
        } else {
            assert((a + b)[i] == b[i - a.len()]);
        }
    }
}

proof fn lemma_join_esc_free(items: Seq<Seq<char>>, sep: Seq<char>)
    requires
        esc_free(sep),
        forall|i: int| 0 <= i < items.len() ==> esc_free(#[trigger] items[i]),
    ensures
        esc_free(spec_join(items, sep)),
    decreases items.len(),
{
    if items.len() == 0 {
        assert(esc_free(Seq::<char>::empty()));
    } else if items.len() == 1 {
        assert(esc_free(items[0]));
    } else {
        let t = items.drop_first();
        assert(forall|i: int| 0 <= i < t.len() ==> t[i] == items[i + 1]);
        lemma_join_esc_free(t, sep);
        lemma_esc_free_concat(items[0], sep);
        lemma_esc_free_concat(items[0] + sep, spec_join(t, sep));
    }
}

proof fn lemma_dec_digits_esc_free(n: nat)
    ensures
        esc_free(dec_digits(n)),
    decreases n,
{
    assert(digit_char(n % 10) != esc());
    assert(digit_char(n) != esc());
    if n < 10 {
        assert(esc_free(seq![digit_char(n)]));
    } else {
        lemma_dec_digits_esc_free(n / 10);
        lemma_esc_free_concat(dec_digits(n / 10), seq![digit_char(n % 10)]);
    }
}

proof fn lemma_report_literals_esc_free()
    ensures
        esc_free(": "@),
        esc_free(", \""@),
        esc_free("\", "@),
        esc_free("\n"@),
        esc_free(", "@),
        esc_free(" \""@),
        esc_free("\""@),
        esc_free(" ("@),
        esc_free("): "@),
        esc_free(")\n"@),
        esc_free(" "@),
        esc_free("by"@),
{
    reveal_strlit(": ");
    reveal_strlit(", \"");
    reveal_strlit("\", ");
    reveal_strlit("\n");
    reveal_strlit(", ");
    reveal_strlit(" \"");
    reveal_strlit("\"");
    reveal_strlit(" (");
    reveal_strlit("): ");
    reveal_strlit(")\n");
    reveal_strlit(" ");
    reveal_strlit("by");
}

proof fn lemma_members_esc(deps: Seq<Dependency>, k: Seq<char>)
    requires
        forall|i: int| 0 <= i < deps.len() ==> esc_free_dep(#[trigger] deps[i]),
    ensures
        forall|j: int|
            0 <= j < members_of(deps, k).len() ==> esc_free_dep(
                #[trigger] members_of(deps, k)[j],
            ),
    decreases deps.len(),
{
    if deps.len() > 0 {
        let t = deps.drop_last();
        assert(forall|i: int| 0 <= i < t.len() ==> t[i] == deps[i]);
        lemma_members_esc(t, k);
        let ms = members_of(deps, k);
        if license_key(deps.last()) == k {
            assert(ms == members_of(t, k).push(deps.last()));
            assert forall|j: int| 0 <= j < ms.len() implies esc_free_dep(#[trigger] ms[j]) by {
                if j < ms.len() - 1 {
                    assert(ms[j] == members_of(t, k)[j]);
                } else {
                    assert(ms[j] == deps.last());
                    assert(deps.last() == deps[deps.len() - 1]);
                }
            }
        } else {
            assert(ms == members_of(t, k));
        }
    }
}

proof fn lemma_all_authors_esc(ms: Seq<Dependency>)
    requires
        forall|j: int| 0 <= j < ms.len() ==> esc_free_dep(#[trigger] ms[j]),
    ensures
        forall|l: int| 0 <= l < all_authors(ms).len() ==> esc_free(#[trigger] all_authors(ms)[l]),
    decreases ms.len(),
{
    if ms.len() > 0 {
        let t = ms.drop_last();
        assert(forall|j: int| 0 <= j < t.len() ==> t[j] == ms[j]);
        lemma_all_authors_esc(t);
        let a = all_authors(ms);
        assert(a == all_authors(t) + author_list(ms.last()));
        assert(ms.last() == ms[ms.len() - 1]);
        assert forall|l: int| 0 <= l < a.len() implies esc_free(#[trigger] a[l]) by {
            if l < all_authors(t).len() {
                assert(a[l] == all_authors(t)[l]);
            } else {
                assert(a[l] == author_list(ms.last())[l - all_authors(t).len()]);
            }
        }
    }
}

proof fn lemma_author_union_esc(ms: Seq<Dependency>)
    requires
        forall|j: int| 0 <= j < ms.len() ==> esc_free_dep(#[trigger] ms[j]),
    ensures
        forall|l: int|
            0 <= l < author_union(ms).len() ==> esc_free(#[trigger] author_union(ms)[l]),
{
    lemma_all_authors_esc(ms);
    lemma_sorted_distinct_props(all_authors(ms));
    assert forall|l: int|
        0 <= l < author_union(ms).len() implies esc_free(#[trigger] author_union(ms)[l]) by {
        let y = author_union(ms)[l];
        assert(author_union(ms).contains(y));
        assert(all_authors(ms).contains(y));
        let w = choose|w: int| 0 <= w < all_authors(ms).len() && all_authors(ms)[w] == y;
        assert(esc_free(all_authors(ms)[w]));
    }
}

proof fn lemma_assoc(a: Seq<char>, b: Seq<char>, c: Seq<char>)
    ensures
        (a + b) + c == a + (b + c),
{
    assert((a + b) + c =~= a + (b + c));
}

#[verifier::rlimit(100)]
proof fn lemma_strip_flat_line(d: Dependency, show_authors: bool, rest: Seq<char>)
    requires
        esc_free_dep(d),
    ensures
        strip_markers(flat_line(d, show_authors, true) + rest) == flat_line(
            d,
            show_authors,
            false,
        ) + strip_markers(rest),
{
    lemma_report_literals_esc_free();
    let nm = d.name@;
    let s1 = styled(nm, true, true);
    let a1 = ": "@;
    let a2 = d.version@;
    let a3 = ", \""@;
    let a4 = license_key(d);
    let a5 = "\", "@;
    let a6 = d.source@;
    let t = a1 + a2 + a3 + a4 + a5 + a6;
    assert(esc_free(t)) by {
        lemma_esc_free_concat(a1, a2);
        lemma_esc_free_concat(a1 + a2, a3);
        lemma_esc_free_concat(a1 + a2 + a3, a4);
        lemma_esc_free_concat(a1 + a2 + a3 + a4, a5);
        lemma_esc_free_concat(a1 + a2 + a3 + a4 + a5, a6);
    }
    let base = s1 + a1 + a2 + a3 + a4 + a5 + a6;
    assert(base == s1 + t) by {
        lemma_assoc(s1, a1, a2);
        lemma_assoc(s1, a1 + a2, a3);
        lemma_assoc(s1, a1 + a2 + a3, a4);
        lemma_assoc(s1, a1 + a2 + a3 + a4, a5);
        lemma_assoc(s1, a1 + a2 + a3 + a4 + a5, a6);
    }
    let base_false = nm + a1 + a2 + a3 + a4 + a5 + a6;
    assert(base_false == nm + t) by {
        lemma_assoc(nm, a1, a2);
        lemma_assoc(nm, a1 + a2, a3);
        lemma_assoc(nm, a1 + a2 + a3, a4);
        lemma_assoc(nm, a1 + a2 + a3 + a4, a5);
        lemma_assoc(nm, a1 + a2 + a3 + a4 + a5, a6);
    }
    if !show_authors {
        assert(flat_line(d, show_authors, true) == base);
        assert(flat_line(d, show_authors, false) == base_false);
        lemma_assoc(s1, t, rest);
        lemma_strip_styled(nm, true, t + rest);
        lemma_strip_clean_append(t, rest);
        lemma_assoc(nm, t, strip_markers(rest));
    } else {
        let joined = spec_join(author_list(d), ", "@);
        assert(esc_free(joined)) by {
            lemma_join_esc_free(author_list(d), ", "@);
        }
        let l4 = ", "@;
        let s2 = styled("by"@, false, true);
        let l5 = " \""@;
        let l6 = "\""@;
        let u = t + l4;
        let v = l5 + joined + l6;
        assert(esc_free(u)) by {
            lemma_esc_free_concat(t, l4);
        }
        assert(esc_free(v)) by {
            lemma_esc_free_concat(l5, joined);
            lemma_esc_free_concat(l5 + joined, l6);
        }
        assert(flat_line(d, show_authors, true) == base + l4 + s2 + l5 + joined + l6);
        assert(flat_line(d, show_authors, false) == base_false + l4 + "by"@ + l5 + joined + l6);
        assert(flat_line(d, show_authors, true) + rest == s1 + (u + (s2 + (v + rest)))) by {
            lemma_assoc(base + l4 + s2 + l5 + joined, l6, rest);
            lemma_assoc(base + l4 + s2 + l5, joined, l6 + rest);
            lemma_assoc(base + l4 + s2, l5, joined + (l6 + rest));
            lemma_assoc(l5, joined, l6 + rest);
            assert((l5 + joined) + (l6 + rest) == v + rest) by {
                lemma_assoc(l5 + joined, l6, rest);
            }
            lemma_assoc(base + l4, s2, v + rest);
            lemma_assoc(base, l4, s2 + (v + rest));
            assert(base + (l4 + (s2 + (v + rest))) == s1 + (t + (l4 + (s2 + (v + rest)))));
            lemma_assoc(t, l4, s2 + (v + rest));
        }
        lemma_strip_styled(nm, true, u + (s2 + (v + rest)));
        lemma_strip_clean_append(u, s2 + (v + rest));
        lemma_strip_styled("by"@, false, v + rest);
        lemma_strip_clean_append(v, rest);
        let sr = strip_markers(rest);
        assert(strip_markers(flat_line(d, show_authors, true) + rest) == nm + (u + ("by"@ + (v
            + sr))));
        assert(flat_line(d, show_authors, false) + sr == nm + (u + ("by"@ + (v + sr)))) by {
            lemma_assoc(base_false + l4 + "by"@ + l5 + joined, l6, sr);
            lemma_assoc(base_false + l4 + "by"@ + l5, joined, l6 + sr);
            lemma_assoc(base_false + l4 + "by"@, l5, joined + (l6 + sr));
            assert(l5 + (joined + (l6 + sr)) == v + sr) by {
                lemma_assoc(l5, joined, l6 + sr);
                lemma_assoc(l5 + joined, l6, sr);
            }
            lemma_assoc(base_false + l4, "by"@, v + sr);
            lemma_assoc(base_false, l4, "by"@ + (v + sr));
            assert(base_false + (l4 + ("by"@ + (v + sr))) == nm + (t + (l4 + ("by"@ + (v
                + sr)))));
            lemma_assoc(t, l4, "by"@ + (v + sr));
        }
    }
}

proof fn lemma_strip_flat_report(deps: Seq<Dependency>, show_authors: bool)
    requires
        forall|i: int| 0 <= i < deps.len() ==> esc_free_dep(#[trigger] deps[i]),
    ensures
        strip_markers(flat_report(deps, show_authors, true)) == flat_report(
            deps,
            show_authors,
            false,
        ),
    decreases deps.len(),
{
    lemma_report_literals_esc_free();
    if deps.len() == 0 {
        assert(strip_markers(Seq::<char>::empty()) == Seq::<char>::empty());
    } else {
        let dtail = deps.drop_first();
        assert(forall|i: int| 0 <= i < dtail.len() ==> dtail[i] == deps[i + 1]);
        lemma_strip_flat_report(dtail, show_authors);
        let d0 = deps.first();
        assert(esc_free_dep(d0)) by {
            assert(d0 == deps[0]);
        }
        let frt = flat_report(dtail, show_authors, true);
        assert(flat_report(deps, show_authors, true) =~= flat_line(d0, show_authors, true) + (
        "\n"@ + frt));
        lemma_strip_flat_line(d0, show_authors, "\n"@ + frt);
        lemma_strip_clean_append("\n"@, frt);
        assert(flat_line(d0, show_authors, false) + ("\n"@ + flat_report(
            dtail,
            show_authors,
            false,
        )) =~= flat_report(deps, show_authors, false));
    }
}

#[verifier::rlimit(100)]
proof fn lemma_strip_group_block(
    deps: Seq<Dependency>,
    k: Seq<char>,
    show_authors: bool,
    rest: Seq<char>,
)
    requires
        esc_free(k),
        forall|i: int| 0 <= i < deps.len() ==> esc_free_dep(#[trigger] deps[i]),
    ensures
        strip_markers(group_block(deps, k, show_authors, true) + rest) == group_block(
            deps,
            k,
            show_authors,
            false,
        ) + strip_markers(rest),
{
    lemma_report_literals_esc_free();
    let ms = members_of(deps, k);
    lemma_members_esc(deps, k);
    let s1 = styled(k, true, true);
    let b1 = " ("@;
    let b2 = dec_digits(ms.len());
    let b4 = spec_join(names_of(ms), ", "@);
    let b5 = "\n"@;
    assert(esc_free(b4)) by {
        assert forall|i: int| 0 <= i < names_of(ms).len() implies esc_free(
            #[trigger] names_of(ms)[i],
        ) by {
            assert(names_of(ms)[i] == ms[i].name@);
        }
        lemma_join_esc_free(names_of(ms), ", "@);
    }
    lemma_dec_digits_esc_free(ms.len());
    let sr = strip_markers(rest);
    if show_authors {
        let b3 = ")\n"@;
        let s2 = styled("by"@, false, true);
        let b6 = " "@;
        let b7 = spec_join(author_union(ms), ", "@);
        assert(esc_free(b7)) by {
            lemma_author_union_esc(ms);
            lemma_join_esc_free(author_union(ms), ", "@);
        }
        let u = b1 + b2 + b3 + b4 + b5;
        let v = b6 + b7 + b5;
        assert(esc_free(u)) by {
            lemma_esc_free_concat(b1, b2);
            lemma_esc_free_concat(b1 + b2, b3);
            lemma_esc_free_concat(b1 + b2 + b3, b4);
            lemma_esc_free_concat(b1 + b2 + b3 + b4, b5);
        }
        assert(esc_free(v)) by {
            lemma_esc_free_concat(b6, b7);
            lemma_esc_free_concat(b6 + b7, b5);
        }
        assert(group_block(deps, k, show_authors, true) == s1 + b1 + b2 + b3 + b4 + b5 + s2 + b6
            + b7 + b5);
        assert(group_block(deps, k, show_authors, false) == k + b1 + b2 + b3 + b4 + b5 + "by"@
            + b6 + b7 + b5);
        assert(group_block(deps, k, show_authors, true) + rest == s1 + (u + (s2 + (v
            + rest)))) by {
            lemma_assoc(s1 + b1 + b2 + b3 + b4 + b5 + s2 + b6 + b7, b5, rest);
            lemma_assoc(s1 + b1 + b2 + b3 + b4 + b5 + s2 + b6, b7, b5 + rest);
            lemma_assoc(s1 + b1 + b2 + b3 + b4 + b5 + s2, b6, b7 + (b5 + rest));
            assert(b6 + (b7 + (b5 + rest)) == v + rest) by {
                lemma_assoc(b6, b7, b5 + rest);
                lemma_assoc(b6 + b7, b5, rest);
            }
            lemma_assoc(s1 + b1 + b2 + b3 + b4 + b5, s2, v + rest);
            lemma_assoc(s1 + b1 + b2 + b3 + b4, b5, s2 + (v + rest));
            lemma_assoc(s1 + b1 + b2 + b3, b4, b5 + (s2 + (v + rest)));
            lemma_assoc(s1 + b1 + b2, b3, b4 + (b5 + (s2 + (v + rest))));
            lemma_assoc(s1 + b1, b2, b3 + (b4 + (b5 + (s2 + (v + rest)))));
            lemma_assoc(s1, b1, b2 + (b3 + (b4 + (b5 + (s2 + (v + rest))))));
            assert(b1 + (b2 + (b3 + (b4 + (b5 + (s2 + (v + rest)))))) == u + (s2 + (v
                + rest))) by {
                lemma_assoc(b1 + b2 + b3 + b4, b5, s2 + (v + rest));
                lemma_assoc(b1 + b2 + b3, b4, b5 + (s2 + (v + rest)));
                lemma_assoc(b1 + b2, b3, b4 + (b5 + (s2 + (v + rest))));
                lemma_assoc(b1, b2, b3 + (b4 + (b5 + (s2 + (v + rest)))));
            }
        }
        lemma_strip_styled(k, true, u + (s2 + (v + rest)));
        lemma_strip_clean_append(u, s2 + (v + rest));
        lemma_strip_styled("by"@, false, v + rest);
        lemma_strip_clean_append(v, rest);
        assert(strip_markers(group_block(deps, k, show_authors, true) + rest) == k + (u + ("by"@
            + (v + sr))));
        assert(group_block(deps, k, show_authors, false) + sr == k + (u + ("by"@ + (v
            + sr)))) by {
            lemma_assoc(k + b1 + b2 + b3 + b4 + b5 + "by"@ + b6 + b7, b5, sr);
            lemma_assoc(k + b1 + b2 + b3 + b4 + b5 + "by"@ + b6, b7, b5 + sr);
            lemma_assoc(k + b1 + b2 + b3 + b4 + b5 + "by"@, b6, b7 + (b5 + sr));
            assert(b6 + (b7 + (b5 + sr)) == v + sr) by {
                lemma_assoc(b6, b7, b5 + sr);
                lemma_assoc(b6 + b7, b5, sr);
            }
            lemma_assoc(k + b1 + b2 + b3 + b4 + b5, "by"@, v + sr);
            lemma_assoc(k + b1 + b2 + b3 + b4, b5, "by"@ + (v + sr));
            lemma_assoc(k + b1 + b2 + b3, b4, b5 + ("by"@ + (v + sr)));
            lemma_assoc(k + b1 + b2, b3, b4 + (b5 + ("by"@ + (v + sr))));
            lemma_assoc(k + b1, b2, b3 + (b4 + (b5 + ("by"@ + (v + sr)))));
            lemma_assoc(k, b1, b2 + (b3 + (b4 + (b5 + ("by"@ + (v + sr))))));
            assert(b1 + (b2 + (b3 + (b4 + (b5 + ("by"@ + (v + sr)))))) == u + ("by"@ + (v
                + sr))) by {
                lemma_assoc(b1 + b2 + b3 + b4, b5, "by"@ + (v + sr));
                lemma_assoc(b1 + b2 + b3, b4, b5 + ("by"@ + (v + sr)));
                lemma_assoc(b1 + b2, b3, b4 + (b5 + ("by"@ + (v + sr))));
                lemma_assoc(b1, b2, b3 + (b4 + (b5 + ("by"@ + (v + sr)))));
            }
        }
    } else {
        let c3 = "): "@;
        let u = b1 + b2 + c3 + b4 + b5;
        assert(esc_free(u)) by {
            lemma_esc_free_concat(b1, b2);
            lemma_esc_free_concat(b1 + b2, c3);
            lemma_esc_free_concat(b1 + b2 + c3, b4);
            lemma_esc_free_concat(b1 + b2 + c3 + b4, b5);
        }
        assert(group_block(deps, k, show_authors, true) == s1 + b1 + b2 + c3 + b4 + b5);
        assert(group_block(deps, k, show_authors, false) == k + b1 + b2 + c3 + b4 + b5);
        assert(group_block(deps, k, show_authors, true) + rest == s1 + (u + rest)) by {
            lemma_assoc(s1 + b1 + b2 + c3 + b4, b5, rest);
            lemma_assoc(s1 + b1 + b2 + c3, b4, b5 + rest);
            lemma_assoc(s1 + b1 + b2, c3, b4 + (b5 + rest));
            lemma_assoc(s1 + b1, b2, c3 + (b4 + (b5 + rest)));
            lemma_assoc(s1, b1, b2 + (c3 + (b4 + (b5 + rest))));
            assert(b1 + (b2 + (c3 + (b4 + (b5 + rest)))) == u + rest) by {
                lemma_assoc(b1 + b2 + c3 + b4, b5, rest);
                lemma_assoc(b1 + b2 + c3, b4, b5 + rest);
                lemma_assoc(b1 + b2, c3, b4 + (b5 + rest));
                lemma_assoc(b1, b2, c3 + (b4 + (b5 + rest)));
            }
        }
        lemma_strip_styled(k, true, u + rest);
        lemma_strip_clean_append(u, rest);
        assert(group_block(deps, k, show_authors, false) + sr == k + (u + sr)) by {
            lemma_assoc(k + b1 + b2 + c3 + b4, b5, sr);
            lemma_assoc(k + b1 + b2 + c3, b4, b5 + sr);
            lemma_assoc(k + b1 + b2, c3, b4 + (b5 + sr));
            lemma_assoc(k + b1, b2, c3 + (b4 + (b5 + sr)));
            lemma_assoc(k, b1, b2 + (c3 + (b4 + (b5 + sr))));
            assert(b1 + (b2 + (c3 + (b4 + (b5 + sr)))) == u + sr) by {
                lemma_assoc(b1 + b2 + c3 + b4, b5, sr);
                lemma_assoc(b1 + b2 + c3, b4, b5 + sr);
                lemma_assoc(b1 + b2, c3, b4 + (b5 + sr));
                lemma_assoc(b1, b2, c3 + (b4 + (b5 + sr)));
            }
        }
    }
}

proof fn lemma_strip_blocks(deps: Seq<Dependency>, ks: Seq<Seq<char>>, show_authors: bool)
    requires
        forall|i: int| 0 <= i < deps.len() ==> esc_free_dep(#[trigger] deps[i]),
        forall|l: int| 0 <= l < ks.len() ==> esc_free(#[trigger] ks[l]),
    ensures
        strip_markers(blocks_from(deps, ks, show_authors, true)) == blocks_from(
            deps,
            ks,
            show_authors,
            false,
        ),
    decreases ks.len(),
{
    if ks.len() == 0 {
        assert(strip_markers(Seq::<char>::empty()) == Seq::<char>::empty());
    } else {
        let kt = ks.drop_first();
        assert(forall|l: int| 0 <= l < kt.len() ==> kt[l] == ks[l + 1]);
        lemma_strip_blocks(deps, kt, show_authors);
        assert(esc_free(ks.first())) by {
            assert(ks.first() == ks[0]);
        }
        lemma_strip_group_block(deps, ks.first(), show_authors, blocks_from(
            deps,
            kt,
            show_authors,
            true,
        ));
    }
}

/// The color switch never changes the report's text: stripping the
/// styling markers from the colorized report of escape-free records
/// yields, character for character, the uncolored report, in both modes.
pub proof fn lemma_color_toggle(deps: Seq<Dependency>, show_authors: bool)
    requires
        forall|i: int| 0 <= i < deps.len() ==> esc_free_dep(#[trigger] deps[i]),
    ensures
        strip_markers(flat_report(deps, show_authors, true)) == flat_report(
            deps,
            show_authors,
            false,
        ),
        strip_markers(grouped_report(deps, show_authors, true)) == grouped_report(
            deps,
            show_authors,
            false,
        ),
{
    lemma_strip_flat_report(deps, show_authors);
    lemma_sorted_distinct_props(license_keys(deps));
    assert forall|l: int| 0 <= l < key_list(deps).len() implies esc_free(
        #[trigger] key_list(deps)[l],
    ) by {
        let y = key_list(deps)[l];
        assert(key_list(deps).contains(y));
        assert(license_keys(deps).contains(y));
        let w = choose|w: int| 0 <= w < license_keys(deps).len() && license_keys(deps)[w] == y;
        assert(license_keys(deps)[w] == license_key(deps[w]));
        assert(esc_free_dep(deps[w]));
    }
    lemma_strip_blocks(deps, key_list(deps), show_authors);
}

} // verus!

