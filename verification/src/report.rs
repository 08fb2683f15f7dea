use vstd::prelude::*;

use crate::group::{
    author_union, collect_author_union, group_dependencies, group_keys, key_list, members_of,
};
use crate::style::{style_token, styled};
use crate::text::{dec_digits, join_with, push_decimal, spec_join};
use crate::{author_list, license_key, Config, Dependency};

verus! {

/// One line of the one-per-line report: styled name, version, quoted
/// license key, source origin, and, when asked for, the quoted author
/// list behind a styled "by". Authors are joined with ", " here as in
/// the grouped mode, so the two modes never drift apart.
pub open spec fn flat_line(d: Dependency, show_authors: bool, color: bool) -> Seq<char> {
    let base = styled(d.name@, true, color) + ": "@ + d.version@ + ", \""@ + license_key(d)
        + "\", "@ + d.source@;
    if show_authors {
        base + ", "@ + styled("by"@, false, color) + " \""@ + spec_join(author_list(d), ", "@)
            + "\""@
    } else {
        base
    }
}

/// The one-per-line report: one line per record, in input order.
pub open spec fn flat_report(deps: Seq<Dependency>, show_authors: bool, color: bool) -> Seq<char>
    decreases deps.len(),
{
    if deps.len() == 0 {
        Seq::<char>::empty()
    } else {
        flat_line(deps.first(), show_authors, color) + "\n"@ + flat_report(
            deps.drop_first(),
            show_authors,
            color,
        )
    }
}

/// One more record appends exactly one more line at the end: earlier
/// lines stand untouched, so the report keeps the input order.
pub proof fn lemma_flat_push(deps: Seq<Dependency>, d: Dependency, show_authors: bool, color: bool)
    ensures
        flat_report(deps.push(d), show_authors, color) == flat_report(deps, show_authors, color)
            + flat_line(d, show_authors, color) + "\n"@,
    decreases deps.len(),
{
    let p = deps.push(d);
    let nl = "\n"@;
    if deps.len() == 0 {
        assert(p.first() == d);
        assert(p.drop_first() =~= Seq::<Dependency>::empty());
        assert(flat_report(p, show_authors, color) == flat_line(d, show_authors, color) + nl
            + flat_report(p.drop_first(), show_authors, color));
        assert(flat_report(p.drop_first(), show_authors, color) == Seq::<char>::empty());
        assert(flat_report(deps, show_authors, color) == Seq::<char>::empty());
        assert(flat_line(d, show_authors, color) + nl + Seq::<char>::empty()
            =~= Seq::<char>::empty() + flat_line(d, show_authors, color) + nl);
    } else {
        assert(p.first() == deps.first());
        assert(p.drop_first() =~= deps.drop_first().push(d));
        lemma_flat_push(deps.drop_first(), d, show_authors, color);
        let h = flat_line(deps.first(), show_authors, color);
        let mid = flat_report(deps.drop_first(), show_authors, color);
        let tl = flat_line(d, show_authors, color);
        assert(flat_report(p, show_authors, color) == h + nl + flat_report(
            p.drop_first(),
            show_authors,
            color,
        ));
        assert(flat_report(p.drop_first(), show_authors, color) == mid + tl + nl);
        assert(flat_report(deps, show_authors, color) == h + nl + mid);
        assert(h + nl + (mid + tl + nl) =~= (h + nl + mid) + tl + nl);
    }
}

/// Renders one record as its one-per-line report line.
fn render_flat_line(d: &Dependency, config: &Config) -> (r: String)
    ensures
        r@ == flat_line(*d, config.show_authors, config.color),
{
    let mut line = style_token(d.name.as_str(), true, config.color);
    line.append(": ");
    line.append(d.version.as_str());
    line.append(", \"");
    match &d.license {
        Some(l) => line.append(l.as_str()),
        None => line.append("N/A"),
    }
    line.append("\", ");
    line.append(d.source.as_str());
    if config.show_authors {
        line.append(", ");
        let by = style_token("by", false, config.color);
        line.append(by.as_str());
        line.append(" \"");
        let joined = match &d.authors {
            Some(a) => join_with(a, ", "),
            None => String::new(),
        };
        line.append(joined.as_str());
        line.append("\"");
    }
    proof {
        assert(line@ =~= flat_line(*d, config.show_authors, config.color));
    }
    line
}

/// Prints every record on a line of its own, in input order.
pub fn one_license_per_line(deps: &Vec<Dependency>, config: &Config) -> (r: String)
    ensures
        r@ == flat_report(deps@, config.show_authors, config.color),
{
    let mut out = String::new();
    let mut i: usize = 0;
    proof {
        assert(deps@.take(0) =~= Seq::<Dependency>::empty());
    }
    while i < deps.len()
        invariant
            i <= deps@.len(),
            out@ == flat_report(deps@.take(i as int), config.show_authors, config.color),
        decreases deps@.len() - i,
    {
        let line = render_flat_line(&deps[i], config);
        out.append(line.as_str());
        out.append("\n");
        proof {
            assert(deps@.take(i + 1) =~= deps@.take(i as int).push(deps@[i as int]));
            lemma_flat_push(
                deps@.take(i as int),
                deps@[i as int],
                config.show_authors,
                config.color,
            );
        }
        i = i + 1;
    }
    proof {
        assert(deps@.take(deps@.len() as int) =~= deps@);
    }
    out
}

/// The dependency names of `ms`, in input order.
pub open spec fn names_of(ms: Seq<Dependency>) -> Seq<Seq<char>> {
    ms.map_values(|d: Dependency| d.name@)
}

/// One bucket of the grouped report: the styled license key, the count
/// in parentheses, the member names, and, when asked for, the sorted,
/// deduplicated author union behind a styled "by".
pub open spec fn group_block(
    deps: Seq<Dependency>,
    k: Seq<char>,
    show_authors: bool,
    color: bool,
) -> Seq<char> {
    let ms = members_of(deps, k);
    let head = styled(k, true, color) + " ("@ + dec_digits(ms.len());
    if show_authors {
        head + ")\n"@ + spec_join(names_of(ms), ", "@) + "\n"@ + styled("by"@, false, color)
            + " "@ + spec_join(author_union(ms), ", "@) + "\n"@
    } else {
        head + "): "@ + spec_join(names_of(ms), ", "@) + "\n"@
    }
}

/// The blocks of the grouped report for the given keys, in key order.
pub open spec fn blocks_from(
    deps: Seq<Dependency>,
    ks: Seq<Seq<char>>,
    show_authors: bool,
    color: bool,
) -> Seq<char>
    decreases ks.len(),
{
    if ks.len() == 0 {
        Seq::<char>::empty()
    } else {
        group_block(deps, ks.first(), show_authors, color) + blocks_from(
            deps,
            ks.drop_first(),
            show_authors,
            color,
        )
    }
}

/// The grouped report: one block per distinct license key, keys in
/// increasing lexicographic order.
pub open spec fn grouped_report(deps: Seq<Dependency>, show_authors: bool, color: bool) -> Seq<
    char,
> {
    blocks_from(deps, key_list(deps), show_authors, color)
}

proof fn lemma_blocks_push(
    deps: Seq<Dependency>,
    ks: Seq<Seq<char>>,
    k: Seq<char>,
    show_authors: bool,
    color: bool,
)
    ensures
        blocks_from(deps, ks.push(k), show_authors, color) == blocks_from(
            deps,
            ks,
            show_authors,
            color,
        ) + group_block(deps, k, show_authors, color),
    decreases ks.len(),
{
    let p = ks.push(k);
    if ks.len() == 0 {
        assert(p.first() == k);
        assert(p.drop_first() =~= Seq::<Seq<char>>::empty());
        assert(blocks_from(deps, p, show_authors, color) == group_block(deps, k, show_authors, color)
            + blocks_from(deps, p.drop_first(), show_authors, color));
        assert(blocks_from(deps, p.drop_first(), show_authors, color) == Seq::<char>::empty());
        assert(blocks_from(deps, ks, show_authors, color) == Seq::<char>::empty());
        assert(group_block(deps, k, show_authors, color) + Seq::<char>::empty()
            =~= Seq::<char>::empty() + group_block(deps, k, show_authors, color));
    } else {
        assert(p.first() == ks.first());
        assert(p.drop_first() =~= ks.drop_first().push(k));
        lemma_blocks_push(deps, ks.drop_first(), k, show_authors, color);
        let h = group_block(deps, ks.first(), show_authors, color);
        let mid = blocks_from(deps, ks.drop_first(), show_authors, color);
        let tl = group_block(deps, k, show_authors, color);
        assert(blocks_from(deps, p, show_authors, color) == h + blocks_from(
            deps,
            p.drop_first(),
            show_authors,
            color,
        ));
        assert(blocks_from(deps, p.drop_first(), show_authors, color) == mid + tl);
        assert(blocks_from(deps, ks, show_authors, color) == h + mid);
        assert(h + (mid + tl) =~= (h + mid) + tl);
    }
}

/// Copies out the names of the records, in order.
fn collect_names(ms: &Vec<Dependency>) -> (r: Vec<String>)
    ensures
        r.deep_view() == names_of(ms@),
{
    let mut r: Vec<String> = Vec::new();
    let mut k: usize = 0;
    proof {
        assert(r.deep_view() =~= names_of(ms@.take(0)));
    }
    while k < ms.len()
        invariant
            k <= ms@.len(),
            r.deep_view() == names_of(ms@.take(k as int)),
        decreases ms@.len() - k,
    {
        let ghost rold = r@;
        let ghost dv0 = r.deep_view();
        r.push(ms[k].name.clone());
        proof {
            let t1 = ms@.take(k + 1);
            assert(t1 =~= ms@.take(k as int).push(ms@[k as int]));
            assert(names_of(ms@.take(k as int)).len() == ms@.take(k as int).len());
            assert(dv0.len() == rold.len());
            assert(rold.len() == k);
            assert(r@[k as int] == ms@[k as int].name);
            assert forall|l: int| 0 <= l < t1.len() implies r.deep_view()[l] == names_of(t1)[l] by {
                assert(names_of(t1)[l] == t1[l].name@);
                assert(r.deep_view()[l] == r@[l]@);
                if l < k {
                    assert(r@[l] == rold[l]);
                    assert(dv0[l] == rold[l]@);
                    assert(dv0[l] == names_of(ms@.take(k as int))[l]);
                    assert(names_of(ms@.take(k as int))[l] == ms@.take(k as int)[l].name@);
                }
            }
            assert(r.deep_view().len() == t1.len());
            assert(r.deep_view() =~= names_of(t1));
        }
        k = k + 1;
    }
    proof {
        assert(ms@.take(ms@.len() as int) =~= ms@);
    }
    r
}

/// Prints the records bucketed by license key, one block per key,
/// keys in increasing lexicographic order.
pub fn group_by_license_type(deps: Vec<Dependency>, config: &Config) -> (r: String)
    ensures
        r@ == grouped_report(deps@, config.show_authors, config.color),
{
    let ghost dv = deps@;
    let groups = group_dependencies(deps);
    let ghost ks = key_list(dv);
    let mut out = String::new();
    let mut gi: usize = 0;
    proof {
        assert(ks.take(0) =~= Seq::<Seq<char>>::empty());
    }
    while gi < groups.len()
        invariant
            gi <= groups@.len(),
            group_keys(groups@) == ks,
            forall|j: int|
                0 <= j < groups@.len() ==> (#[trigger] groups@[j]).members@ == members_of(
                    dv,
                    groups@[j].license@,
                ),
            out@ == blocks_from(dv, ks.take(gi as int), config.show_authors, config.color),
        decreases groups@.len() - gi,
    {
        proof {
            assert(ks[gi as int] == groups@[gi as int].license@);
        }
        let g = &groups[gi];
        let head = style_token(g.license.as_str(), true, config.color);
        out.append(head.as_str());
        out.append(" (");
        push_decimal(g.members.len(), &mut out);
        let names = collect_names(&g.members);
        let joined_names = join_with(&names, ", ");
        if config.show_authors {
            out.append(")\n");
            out.append(joined_names.as_str());
            out.append("\n");
            let by = style_token("by", false, config.color);
            out.append(by.as_str());
            out.append(" ");
            let authors = collect_author_union(&g.members);
            let joined_authors = join_with(&authors, ", ");
            out.append(joined_authors.as_str());
            out.append("\n");
        } else {
            out.append("): ");
            out.append(joined_names.as_str());
            out.append("\n");
        }
        proof {
            assert(ks.take(gi + 1) =~= ks.take(gi as int).push(ks[gi as int]));
            lemma_blocks_push(
                dv,
                ks.take(gi as int),
                ks[gi as int],
                config.show_authors,
                config.color,
            );
            assert(out@ =~= blocks_from(dv, ks.take(gi + 1), config.show_authors, config.color));
        }
        gi = gi + 1;
    }
    proof {
        assert(ks.take(groups@.len() as int) =~= ks);
    }
    out
}

/// The whole report: one line per record when `one_per_line` is set,
/// the license-bucketed blocks otherwise.
pub fn render_report(deps: Vec<Dependency>, one_per_line: bool, config: &Config) -> (r: String)
    ensures
        r@ == if one_per_line {
            flat_report(deps@, config.show_authors, config.color)
        } else {
            grouped_report(deps@, config.show_authors, config.color)
        },
{
    if one_per_line {
        one_license_per_line(&deps, config)
    } else {
        group_by_license_type(deps, config)
    }
}

/// The diagnostic shown when the dependency source found no lockfile,
/// with the source's own error appended.
pub fn missing_lockfile_message(detail: &str) -> (r: String)
    ensures
        r@ == "Cargo.lock file not found. Try building the project first.\n"@ + detail@,
{
    let mut m = String::new();
    m.append("Cargo.lock file not found. Try building the project first.\n");
    m.append(detail);
    proof {
        assert(m@ =~= "Cargo.lock file not found. Try building the project first.\n"@ + detail@);
    }
    m
}

} // verus!
