//! The primer's Common Directories section: continuous-integration markers
//! and the directories that read as frontend, backend, migrations, tests or
//! scripts, grouped by kind.

use crate::ordered::text_views;
use crate::text::{concat, str_eq};
use vstd::prelude::*;

verus! {

/// The kinds of the section, in the order they are printed.
pub open spec fn common_kinds() -> Seq<Seq<char>> {
    seq!["frontend"@, "backend"@, "database-migrations"@, "tests"@, "scripts"@, "continuous-integration"@]
}

pub fn common_kind_list() -> (r: Vec<&'static str>)
    ensures
        r@.map_values(|s: &'static str| s@) == common_kinds(),
{
    let r = vec!["frontend", "backend", "database-migrations", "tests", "scripts", "continuous-integration"];
    assert(r@.map_values(|s: &'static str| s@) =~= common_kinds());
    r
}

/// The files and directories whose presence names a CI system, with the
/// system's name, in the order they are looked for.
pub open spec fn ci_marker_specs() -> Seq<(Seq<char>, Seq<char>)> {
    seq![
        (".github/workflows"@, "GitHub Actions"@),
        (".gitlab-ci.yml"@, "GitLab CI"@),
        (".circleci/config.yml"@, "CircleCI"@),
        ("Jenkinsfile"@, "Jenkins"@),
        ("azure-pipelines.yml"@, "Azure Pipelines"@),
        ("bitbucket-pipelines.yml"@, "Bitbucket Pipelines"@),
        (".drone.yml"@, "Drone"@),
        (".travis.yml"@, "Travis"@),
    ]
}

pub open spec fn pair_view(p: (&'static str, &'static str)) -> (Seq<char>, Seq<char>) {
    (p.0@, p.1@)
}

/// The CI markers, each as its path below the repository root and the
/// system's name.
pub fn ci_markers() -> (r: Vec<(&'static str, &'static str)>)
    ensures
        r@.map_values(|p: (&'static str, &'static str)| pair_view(p)) == ci_marker_specs(),
{
    let r = vec![
        (".github/workflows", "GitHub Actions"),
        (".gitlab-ci.yml", "GitLab CI"),
        (".circleci/config.yml", "CircleCI"),
        ("Jenkinsfile", "Jenkins"),
        ("azure-pipelines.yml", "Azure Pipelines"),
        ("bitbucket-pipelines.yml", "Bitbucket Pipelines"),
        (".drone.yml", "Drone"),
        (".travis.yml", "Travis"),
    ];
    assert(r@.map_values(|p: (&'static str, &'static str)| pair_view(p)) =~= ci_marker_specs());
    r
}

/// The CI entries for the markers found (`present[i]` for the `i`th marker).
pub open spec fn ci_entries(present: Seq<bool>) -> Seq<(Seq<char>, Seq<char>)>
    decreases present.len(),
{
    if present.len() == 0 {
        Seq::empty()
    } else {
        let prev = ci_entries(present.drop_last());
        if present.last() {
            prev.push(ci_marker_specs()[present.len() - 1])
        } else {
            prev
        }
    }
}

/// A label as kind, directory and evidence.
pub type Label = (Seq<char>, Seq<char>, Seq<char>);

pub open spec fn dir_labels(d: (String, Vec<(&'static str, String)>)) -> Seq<Label> {
    d.1@.map_values(|l: (&'static str, String)| (l.0@, d.0@, l.1@))
}

/// Every directory's labels, directory after directory.
pub open spec fn all_labels(dirs: Seq<(String, Vec<(&'static str, String)>)>) -> Seq<Label>
    decreases dirs.len(),
{
    if dirs.len() == 0 {
        Seq::empty()
    } else {
        all_labels(dirs.drop_last()) + dir_labels(dirs.last())
    }
}

/// The labels whose kind and directory were not labelled before.
pub open spec fn first_labels(ls: Seq<Label>) -> Seq<Label>
    decreases ls.len(),
{
    if ls.len() == 0 {
        Seq::empty()
    } else {
        let x = ls.last();
        let prev = first_labels(ls.drop_last());
        if exists|j: int| 0 <= j < ls.len() - 1 && (#[trigger] ls[j]).0 == x.0 && ls[j].1 == x.1 {
            prev
        } else {
            prev.push(x)
        }
    }
}

/// A kind's entries: the CI markers found (for continuous integration),
/// then its labelled directories with their evidence.
pub open spec fn kind_entries(k: Seq<char>, ci: Seq<(Seq<char>, Seq<char>)>, firsts: Seq<Label>) -> Seq<(Seq<char>, Seq<char>)> {
    (if k == "continuous-integration"@ {
        ci
    } else {
        Seq::empty()
    }) + firsts.filter(|x: Label| x.0 == k).map_values(|x: Label| (x.1, x.2))
}

pub open spec fn entry_lines(es: Seq<(Seq<char>, Seq<char>)>) -> Seq<Seq<char>> {
    es.map_values(|e: (Seq<char>, Seq<char>)| "    "@ + e.0 + "  ("@ + e.1 + ")"@)
}

/// The blocks of the first `n` kinds that have entries.
pub open spec fn kind_blocks(n: nat, ci: Seq<(Seq<char>, Seq<char>)>, firsts: Seq<Label>) -> Seq<Seq<char>>
    decreases n,
{
    if n == 0 {
        Seq::empty()
    } else {
        let k = common_kinds()[n - 1];
        let es = kind_entries(k, ci, firsts);
        kind_blocks((n - 1) as nat, ci, firsts) + if es.len() == 0 {
            Seq::empty()
        } else {
            seq!["  "@ + k + ":"@] + entry_lines(es)
        }
    }
}

/// The Common Directories section.
pub open spec fn common_section(present: Seq<bool>, dirs: Seq<(String, Vec<(&'static str, String)>)>) -> Seq<Seq<char>> {
    let blocks = kind_blocks(6, ci_entries(present), first_labels(all_labels(dirs)));
    seq!["## Common Directories"@] + if blocks.len() == 0 {
        seq!["  (no common directories detected)"@]
    } else {
        blocks
    }
}

pub open spec fn label_views(v: Seq<(String, String, String)>) -> Seq<Label> {
    v.map_values(|x: (String, String, String)| (x.0@, x.1@, x.2@))
}

fn flatten(dirs: &Vec<(String, Vec<(&'static str, String)>)>) -> (r: Vec<(String, String, String)>)
    ensures
        label_views(r@) == all_labels(dirs@),
{
    let mut out: Vec<(String, String, String)> = Vec::new();
    let mut i: usize = 0;
    while i < dirs.len()
        invariant
            i <= dirs@.len(),
            label_views(out@) == all_labels(dirs@.take(i as int)),
        decreases dirs@.len() - i,
    {
        assert(dirs@.take(i + 1).drop_last() =~= dirs@.take(i as int));
        assert(dirs@.take(i + 1).last() == dirs@[i as int]);
        let ghost base = label_views(out@);
        let ghost d = dirs@[i as int];
        let mut j: usize = 0;
        while j < dirs[i].1.len()
            invariant
                i < dirs@.len(),
                d == dirs@[i as int],
                j <= d.1@.len(),
                label_views(out@) == base + dir_labels(d).take(j as int),
            decreases d.1@.len() - j,
        {
            let ghost ov = label_views(out@);
            let kind = dirs[i].1[j].0.to_owned();
            let rel = dirs[i].0.clone();
            let ev = dirs[i].1[j].1.clone();
            out.push((kind, rel, ev));
            assert(dir_labels(d).take(j + 1) =~= dir_labels(d).take(j as int).push(dir_labels(d)[j as int]));
            assert(label_views(out@) =~= ov.push(dir_labels(d)[j as int]));
            j += 1;
        }
        assert(dir_labels(d).take(j as int) =~= dir_labels(d));
        i += 1;
    }
    assert(dirs@.take(i as int) =~= dirs@);
    out
}

fn seen_before(ls: &Vec<(String, String, String)>, upto: usize, kind: &str, rel: &str) -> (r: bool)
    requires
        upto <= ls@.len(),
    ensures
        r == exists|j: int| 0 <= j < upto && (#[trigger] label_views(ls@)[j]).0 == kind@ && label_views(ls@)[j].1 == rel@,
{
    let ghost lv = label_views(ls@);
    let mut j: usize = 0;
    while j < upto
        invariant
            j <= upto <= ls@.len(),
            lv == label_views(ls@),
            forall|q: int| 0 <= q < j ==> !((#[trigger] lv[q]).0 == kind@ && lv[q].1 == rel@),
        decreases upto - j,
    {
        assert(lv[j as int] == (ls@[j as int].0@, ls@[j as int].1@, ls@[j as int].2@));
        if str_eq(ls[j].0.as_str(), kind) && str_eq(ls[j].1.as_str(), rel) {
            return true;
        }
        j += 1;
    }
    false
}

fn firsts_of(ls: &Vec<(String, String, String)>) -> (r: Vec<(String, String, String)>)
    ensures
        label_views(r@) == first_labels(label_views(ls@)),
{
    let ghost lv = label_views(ls@);
    let mut out: Vec<(String, String, String)> = Vec::new();
    let mut i: usize = 0;
    while i < ls.len()
        invariant
            i <= ls@.len(),
            lv == label_views(ls@),
            label_views(out@) == first_labels(lv.take(i as int)),
        decreases ls@.len() - i,
    {
        let ghost pre = lv.take(i + 1);
        assert(pre.drop_last() =~= lv.take(i as int));
        assert(pre.last() == lv[i as int]);
        assert(lv[i as int] == (ls@[i as int].0@, ls@[i as int].1@, ls@[i as int].2@));
        let dup = seen_before(ls, i, ls[i].0.as_str(), ls[i].1.as_str());
        assert(dup == exists|j: int| 0 <= j < pre.len() - 1 && (#[trigger] pre[j]).0 == pre.last().0 && pre[j].1 == pre.last().1) by {
            if dup {
                let j = choose|j: int| 0 <= j < i && (#[trigger] lv[j]).0 == ls@[i as int].0@ && lv[j].1 == ls@[i as int].1@;
                assert(pre[j] == lv[j]);
            }
            if exists|j: int| 0 <= j < pre.len() - 1 && (#[trigger] pre[j]).0 == pre.last().0 && pre[j].1 == pre.last().1 {
                let j = choose|j: int| 0 <= j < pre.len() - 1 && (#[trigger] pre[j]).0 == pre.last().0 && pre[j].1 == pre.last().1;
                assert(pre[j] == lv[j]);
            }
        }
        if !dup {
            let ghost ov = label_views(out@);
            out.push((ls[i].0.clone(), ls[i].1.clone(), ls[i].2.clone()));
            assert(label_views(out@) =~= ov.push(lv[i as int]));
        }
        i += 1;
    }
    assert(lv.take(i as int) =~= lv);
    out
}

/// The lines of the Common Directories section: `present` tells, marker by
/// marker, which CI markers exist; `dirs` are the candidate directories
/// (relative to the root, in walking order), each with what
/// `classify_directory` read it as.
pub fn common_directory_lines(present: &Vec<bool>, dirs: &Vec<(String, Vec<(&'static str, String)>)>) -> (r: Vec<String>)
    requires
        present@.len() <= 8,
    ensures
        text_views(r@) == common_section(present@, dirs@),
{
    let markers = ci_markers();
    assert(markers@.len() == 8) by {
        assert(markers@.map_values(|p: (&'static str, &'static str)| pair_view(p)).len() == 8);
    }
    let mut ci: Vec<(String, String)> = Vec::new();
    let mut m: usize = 0;
    while m < present.len()
        invariant
            m <= present@.len() <= 8,
            markers@.len() == 8,
            markers@.map_values(|p: (&'static str, &'static str)| pair_view(p)) == ci_marker_specs(),
            ci@.map_values(|e: (String, String)| (e.0@, e.1@)) == ci_entries(present@.take(m as int)),
        decreases present@.len() - m,
    {
        assert(present@.take(m + 1).drop_last() =~= present@.take(m as int));
        assert(present@.take(m + 1).last() == present@[m as int]);
        if present[m] {
            let ghost ov = ci@.map_values(|e: (String, String)| (e.0@, e.1@));
            assert(pair_view(markers@[m as int]) == ci_marker_specs()[m as int]);
            ci.push((markers[m].0.to_owned(), markers[m].1.to_owned()));
            assert(ci@.map_values(|e: (String, String)| (e.0@, e.1@)) =~= ov.push(ci_marker_specs()[m as int]));
        }
        m += 1;
    }
    assert(present@.take(m as int) =~= present@);
    let ghost civ = ci_entries(present@);
    let flat = flatten(dirs);
    let firsts = firsts_of(&flat);
    let ghost fv = label_views(firsts@);
    assert(fv == first_labels(all_labels(dirs@)));
    let kinds = common_kind_list();
    let mut blocks: Vec<String> = Vec::new();
    let mut k: usize = 0;
    while k < kinds.len()
        invariant
            k <= kinds@.len(),
            kinds@.map_values(|s: &'static str| s@) == common_kinds(),
            civ == ci_entries(present@),
            ci@.map_values(|e: (String, String)| (e.0@, e.1@)) == civ,
            fv == label_views(firsts@),
            text_views(blocks@) == kind_blocks(k as nat, civ, fv),
        decreases kinds@.len() - k,
    {
        let kind = kinds[k];
        assert(kind@ == common_kinds()[k as int]);
        let ghost es = kind_entries(kind@, civ, fv);
        let ghost pred = |x: Label| x.0 == kind@;
        let mut entries: Vec<String> = Vec::new();
        // CI markers first
        if str_eq(kind, "continuous-integration") {
            let mut c: usize = 0;
            while c < ci.len()
                invariant
                    c <= ci@.len(),
                    ci@.map_values(|e: (String, String)| (e.0@, e.1@)) == civ,
                    text_views(entries@) == entry_lines(civ.take(c as int)),
                decreases ci@.len() - c,
            {
                let ghost ov = text_views(entries@);
                let a = concat("    ", ci[c].0.as_str());
                let b = concat(a.as_str(), "  (");
                let d = concat(b.as_str(), ci[c].1.as_str());
                let line = concat(d.as_str(), ")");
                assert(civ[c as int] == (ci@[c as int].0@, ci@[c as int].1@));
                assert(line@ == "    "@ + civ[c as int].0 + "  ("@ + civ[c as int].1 + ")"@);
                entries.push(line);
                assert(text_views(entries@) =~= ov.push(line@));
                assert(civ.take(c + 1) =~= civ.take(c as int).push(civ[c as int]));
                assert(entry_lines(civ.take(c + 1)) =~= entry_lines(civ.take(c as int)).push(line@));
                c += 1;
            }
            assert(civ.take(c as int) =~= civ);
        }
        let ghost head_es: Seq<(Seq<char>, Seq<char>)> = if kind@ == "continuous-integration"@ { civ } else { Seq::empty() };
        assert(text_views(entries@) == entry_lines(head_es));
        let mut f: usize = 0;
        while f < firsts.len()
            invariant
                f <= firsts@.len(),
                fv == label_views(firsts@),
                pred == (|x: Label| x.0 == kind@),
                text_views(entries@) == entry_lines(head_es + fv.take(f as int).filter(pred).map_values(|x: Label| (x.1, x.2))),
            decreases firsts@.len() - f,
        {
            proof {
                fv.take(f as int).lemma_filter_push(fv[f as int], pred);
            }
            assert(fv.take(f + 1) =~= fv.take(f as int).push(fv[f as int]));
            assert(fv[f as int] == (firsts@[f as int].0@, firsts@[f as int].1@, firsts@[f as int].2@));
            if str_eq(firsts[f].0.as_str(), kind) {
                let ghost ov = text_views(entries@);
                let a = concat("    ", firsts[f].1.as_str());
                let b = concat(a.as_str(), "  (");
                let d = concat(b.as_str(), firsts[f].2.as_str());
                let line = concat(d.as_str(), ")");
                entries.push(line);
                assert(text_views(entries@) =~= ov.push(line@));
                let ghost before = head_es + fv.take(f as int).filter(pred).map_values(|x: Label| (x.1, x.2));
                let ghost after = head_es + fv.take(f + 1).filter(pred).map_values(|x: Label| (x.1, x.2));
                assert(fv.take(f + 1).filter(pred) == fv.take(f as int).filter(pred).push(fv[f as int]));
                assert(after =~= before.push((fv[f as int].1, fv[f as int].2)));
                assert(entry_lines(after) =~= entry_lines(before).push(line@));
            } else {
                assert(fv.take(f + 1).filter(pred) == fv.take(f as int).filter(pred));
            }
            f += 1;
        }
        assert(fv.take(f as int) =~= fv);
        assert(head_es + fv.filter(pred).map_values(|x: Label| (x.1, x.2)) == es);
        let ghost ob = text_views(blocks@);
        if entries.len() > 0 {
            let a = concat("  ", kind);
            blocks.push(concat(a.as_str(), ":"));
            let mut e: usize = 0;
            let ghost mid = text_views(blocks@);
            while e < entries.len()
                invariant
                    e <= entries@.len(),
                    text_views(blocks@) == mid + text_views(entries@).take(e as int),
                decreases entries@.len() - e,
            {
                let ghost ob2 = text_views(blocks@);
                let x = entries[e].clone();
                assert(x@ == text_views(entries@)[e as int]);
                blocks.push(x);
                assert(text_views(blocks@) =~= ob2.push(x@));
                assert(text_views(blocks@) =~= mid + text_views(entries@).take(e + 1));
                e += 1;
            }
            assert(text_views(entries@).take(e as int) =~= text_views(entries@));
            assert(entry_lines(es).len() == es.len());
            assert(text_views(blocks@) =~= ob + (seq!["  "@ + kind@ + ":"@] + entry_lines(es)));
        } else {
            assert(entry_lines(es).len() == es.len());
            assert(es.len() == 0);
            assert(text_views(blocks@) =~= ob + Seq::<Seq<char>>::empty());
        }
        assert(common_kinds()[k as int] == kind@);
        assert(kind_blocks((k + 1) as nat, civ, fv) == kind_blocks(k as nat, civ, fv) + (if es.len() == 0 {
            Seq::<Seq<char>>::empty()
        } else {
            seq!["  "@ + kind@ + ":"@] + entry_lines(es)
        }));
        k += 1;
    }
    assert(kinds@.map_values(|s: &'static str| s@).len() == 6);
    assert(k == 6);
    assert(text_views(blocks@) == kind_blocks(6, ci_entries(present@), first_labels(all_labels(dirs@))));
    let mut out: Vec<String> = Vec::new();
    out.push("## Common Directories".to_owned());
    if blocks.len() == 0 {
        out.push("  (no common directories detected)".to_owned());
    } else {
        let mut b: usize = 0;
        let ghost h = text_views(out@);
        while b < blocks.len()
            invariant
                b <= blocks@.len(),
                text_views(out@) == h + text_views(blocks@).take(b as int),
            decreases blocks@.len() - b,
        {
            let ghost oo = text_views(out@);
            let x = blocks[b].clone();
            assert(x@ == text_views(blocks@)[b as int]);
            out.push(x);
            assert(text_views(out@) =~= oo.push(x@));
            assert(text_views(out@) =~= h + text_views(blocks@).take(b + 1));
            b += 1;
        }
        assert(text_views(blocks@).take(b as int) =~= text_views(blocks@));
    }
    assert(text_views(out@) =~= common_section(present@, dirs@));
    out
}

} // verus!
