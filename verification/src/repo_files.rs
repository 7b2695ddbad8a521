//! The repository's file set: which directories a walk never enters, how
//! repo-relative paths join onto the root, and which nested checkouts a
//! search names when it leaves them out.

use crate::ordered::text_views;
use crate::text::{chars_of, concat, seq_starts_with, starts_with, string_of_range};
use vstd::prelude::*;

verus! {

pub open spec fn skip_dir_names() -> Seq<Seq<char>> {
    seq![
        ".git"@,
        ".next"@,
        ".tracer-cache"@,
        ".venv"@,
        "__pycache__"@,
        "build"@,
        "dist"@,
        "node_modules"@,
        "venv"@,
        "vendor"@,
    ]
}

/// Directory names no walk descends into.
pub fn skip_dirs() -> (r: Vec<String>)
    ensures
        text_views(r@) == skip_dir_names(),
{
    let mut r: Vec<String> = Vec::new();
    r.push(".git".to_owned());
    r.push(".next".to_owned());
    r.push(".tracer-cache".to_owned());
    r.push(".venv".to_owned());
    r.push("__pycache__".to_owned());
    r.push("build".to_owned());
    r.push("dist".to_owned());
    r.push("node_modules".to_owned());
    r.push("venv".to_owned());
    r.push("vendor".to_owned());
    assert(text_views(r@) =~= skip_dir_names());
    r
}

/// `root.join(rel)`: an absolute `rel` replaces the root; otherwise one
/// separator stands between them (none after an empty root or one that
/// already ends in a separator).
pub open spec fn join_spec(root: Seq<char>, rel: Seq<char>) -> Seq<char> {
    if rel.len() > 0 && rel[0] == '/' {
        rel
    } else if root.len() == 0 || root.last() == '/' {
        root + rel
    } else {
        root + "/"@ + rel
    }
}

pub fn join_path(root: &str, rel: &str) -> (r: String)
    ensures
        r@ == join_spec(root@, rel@),
{
    let rc = chars_of(rel);
    let oc = chars_of(root);
    if rc.len() > 0 && rc[0] == '/' {
        rel.to_owned()
    } else if oc.len() == 0 || oc[oc.len() - 1] == '/' {
        concat(root, rel)
    } else {
        let with_sep = concat(root, "/");
        concat(with_sep.as_str(), rel)
    }
}

/// Repo-relative paths joined onto the repository root; absent when the
/// listing is.
pub fn tracked_paths(repo_root: &str, rels: Option<Vec<String>>) -> (r: Option<Vec<String>>)
    ensures
        match (rels, r) {
            (None, None) => true,
            (Some(v), Some(out)) => text_views(out@) == text_views(v@).map_values(|x: Seq<char>| join_spec(repo_root@, x)),
            _ => false,
        },
{
    match rels {
        None => None,
        Some(v) => {
            let ghost want = text_views(v@).map_values(|x: Seq<char>| join_spec(repo_root@, x));
            let mut out: Vec<String> = Vec::new();
            let mut i: usize = 0;
            while i < v.len()
                invariant
                    i <= v.len(),
                    want == text_views(v@).map_values(|x: Seq<char>| join_spec(repo_root@, x)),
                    out@.len() == i,
                    text_views(out@) == want.take(i as int),
                decreases v.len() - i,
            {
                let j = join_path(repo_root, v[i].as_str());
                out.push(j);
                assert(text_views(out@) =~= want.take(i + 1));
                i += 1;
            }
            assert(want.take(i as int) =~= want);
            Some(out)
        },
    }
}

/// `p` is `k` or lies under it, component by component.
pub open spec fn path_under(p: Seq<char>, k: Seq<char>) -> bool {
    ||| p == k
    ||| (k.len() > 0 && starts_with(p, k) && p.len() > k.len() && (k.last() == '/' || p[k.len() as int] == '/'))
}

/// `p` with the leading path `base` removed; `p` itself when it does not
/// lie under `base`.
pub open spec fn strip_base(p: Seq<char>, base: Seq<char>) -> Seq<char> {
    if p == base {
        Seq::empty()
    } else if path_under(p, base) {
        if base.last() == '/' {
            p.skip(base.len() as int)
        } else {
            p.skip(base.len() as int + 1)
        }
    } else {
        p
    }
}

pub open spec fn stripped(ps: Seq<Seq<char>>, base: Seq<char>) -> Seq<Seq<char>> {
    ps.map_values(|p: Seq<char>| strip_base(p, base))
}

/// Of `found` (in order), the paths under no earlier kept path.
pub open spec fn outermost(found: Seq<Seq<char>>) -> Seq<Seq<char>>
    decreases found.len(),
{
    if found.len() == 0 {
        Seq::empty()
    } else {
        let kept = outermost(found.drop_last());
        if exists|j: int| 0 <= j < kept.len() && path_under(found.last(), #[trigger] kept[j]) {
            kept
        } else {
            kept.push(found.last())
        }
    }
}

fn is_under(p: &Vec<char>, k: &Vec<char>) -> (r: bool)
    ensures
        r == path_under(p@, k@),
{
    if p.len() == k.len() && seq_starts_with(p, k) {
        assert(p@ =~= k@);
        return true;
    }
    proof {
        if p@ == k@ {
            assert(p@.subrange(0, k@.len() as int) =~= k@);
            assert(starts_with(p@, k@));
        }
    }
    k.len() > 0 && seq_starts_with(p, k) && p.len() > k.len() && (k[k.len() - 1] == '/' || p[k.len()] == '/')
}

fn strip_base_of(p: &str, base: &Vec<char>) -> (r: String)
    ensures
        r@ == strip_base(p@, base@),
{
    let pc = chars_of(p);
    if is_under(&pc, base) {
        if pc.len() == base.len() {
            assert(pc@ =~= base@);
            proof {
                reveal_strlit("");
            }
            return "".to_owned();
        }
        let from: usize = if base[base.len() - 1] == '/' { base.len() } else { base.len() + 1 };
        let r = string_of_range(&pc, from, pc.len());
        assert(r@ =~= strip_base(p@, base@));
        r
    } else {
        p.to_owned()
    }
}

/// Component-wise order of `/`-separated paths, each component by text:
/// how paths sort.
pub open spec fn comps_lt(a: Seq<Seq<char>>, b: Seq<Seq<char>>) -> bool
    decreases a.len(),
{
    if a.len() == 0 {
        b.len() > 0
    } else if b.len() == 0 {
        false
    } else if a[0] == b[0] {
        comps_lt(a.drop_first(), b.drop_first())
    } else {
        crate::ordered::text_lt(a[0], b[0])
    }
}

pub open spec fn path_before() -> spec_fn(Seq<char>, Seq<char>) -> bool {
    |a: Seq<char>, b: Seq<char>| comps_lt(crate::text::split_seq(a, '/'), crate::text::split_seq(b, '/'))
}

fn path_less(a: &str, b: &str) -> (r: bool)
    ensures
        r == (path_before())(a@, b@),
{
    let acs = chars_of(a);
    let bcs = chars_of(b);
    let ac = crate::text::split_chars(&acs, '/');
    let bc = crate::text::split_chars(&bcs, '/');
    let ghost av = crate::text::views_char(ac@);
    let ghost bv = crate::text::views_char(bc@);
    let mut i: usize = 0;
    assert(av.skip(0) =~= av);
    assert(bv.skip(0) =~= bv);
    while i < ac.len() && i < bc.len()
        invariant
            i <= ac@.len(),
            i <= bc@.len(),
            av == crate::text::views_char(ac@),
            bv == crate::text::views_char(bc@),
            av == crate::text::split_seq(a@, '/'),
            bv == crate::text::split_seq(b@, '/'),
            comps_lt(av, bv) == comps_lt(av.skip(i as int), bv.skip(i as int)),
        decreases ac@.len() - i,
    {
        let x = crate::text::string_of(&ac[i]);
        let y = crate::text::string_of(&bc[i]);
        assert(av.skip(i as int)[0] == x@);
        assert(bv.skip(i as int)[0] == y@);
        if !crate::text::str_eq(x.as_str(), y.as_str()) {
            assert(av.skip(i as int).len() > 0 && bv.skip(i as int).len() > 0);
            assert(av.skip(i as int)[0] != bv.skip(i as int)[0]);
            assert(comps_lt(av.skip(i as int), bv.skip(i as int)) == crate::ordered::text_lt(x@, y@));
            assert(av == crate::text::split_seq(a@, '/'));
            assert(bv == crate::text::split_seq(b@, '/'));
            return crate::ordered::text_less(x.as_str(), y.as_str());
        }
        assert(av.skip(i as int).drop_first() =~= av.skip(i + 1));
        assert(bv.skip(i as int).drop_first() =~= bv.skip(i + 1));
        i += 1;
    }
    i == ac.len() && i < bc.len()
}

fn insert_path(out: &mut Vec<String>, x: String)
    ensures
        text_views(final(out)@) == crate::dirlist::ins(text_views(old(out)@), x@, path_before()),
{
    let ghost ov = text_views(out@);
    let ghost bf = path_before();
    let mut p: usize = out.len();
    while p > 0 && path_less(x.as_str(), out[p - 1].as_str())
        invariant
            p <= out@.len(),
            ov == text_views(out@),
            bf == path_before(),
            forall|j: int| p <= j < ov.len() ==> bf(x@, #[trigger] ov[j]),
        decreases p,
    {
        assert(ov[p - 1] == out@[p - 1]@);
        p -= 1;
    }
    if p > 0 {
        assert(ov[p - 1] == out@[p - 1]@);
    }
    proof {
        crate::dirlist::lemma_ins_at(ov, x@, bf, p as int);
    }
    let ghost xv = x@;
    out.insert(p, x);
    assert(text_views(out@) =~= ov.take(p as int) + seq![xv] + ov.skip(p as int));
}

/// `paths` in path order (stable).
pub fn sort_paths(paths: &Vec<String>) -> (r: Vec<String>)
    ensures
        text_views(r@) == crate::dirlist::stable_sort(text_views(paths@), path_before()),
{
    let ghost pv = text_views(paths@);
    let mut out: Vec<String> = Vec::new();
    let mut i: usize = 0;
    while i < paths.len()
        invariant
            i <= paths@.len(),
            pv == text_views(paths@),
            text_views(out@) == crate::dirlist::stable_sort(pv.take(i as int), path_before()),
        decreases paths@.len() - i,
    {
        assert(pv.take(i + 1).drop_last() =~= pv.take(i as int));
        assert(pv.take(i + 1).last() == paths@[i as int]@);
        insert_path(&mut out, paths[i].clone());
        i += 1;
    }
    assert(pv.take(i as int) =~= pv);
    out
}

/// The nested checkouts a walk under `base` found, in path order, keeping
/// only the outermost of each nest, as paths relative to `base`.
pub fn nested_repo_rels(base: &str, found: &Vec<String>) -> (r: Vec<String>)
    ensures
        text_views(r@) == stripped(outermost(crate::dirlist::stable_sort(text_views(found@), path_before())), base@),
{
    let found = sort_paths(found);
    let found = &found;
    let ghost fv = text_views(found@);
    let mut kept: Vec<Vec<char>> = Vec::new();
    let mut kept_s: Vec<String> = Vec::new();
    let mut i: usize = 0;
    while i < found.len()
        invariant
            i <= found.len(),
            fv == text_views(found@),
            kept@.len() == kept_s@.len(),
            forall|j: int| 0 <= j < kept@.len() ==> (#[trigger] kept@[j])@ == kept_s@[j]@,
            text_views(kept_s@) == outermost(fv.take(i as int)),
        decreases found.len() - i,
    {
        let pc = chars_of(found[i].as_str());
        let ghost kv = text_views(kept_s@);
        assert(fv.take(i + 1).drop_last() =~= fv.take(i as int));
        assert(fv.take(i + 1).last() == pc@);
        let mut covered = false;
        let mut j: usize = 0;
        while j < kept.len() && !covered
            invariant
                j <= kept@.len(),
                kept@.len() == kept_s@.len(),
                kv == text_views(kept_s@),
                forall|q: int| 0 <= q < kept@.len() ==> (#[trigger] kept@[q])@ == kept_s@[q]@,
                covered ==> exists|q: int| 0 <= q < kv.len() && path_under(pc@, #[trigger] kv[q]),
                !covered ==> forall|q: int| 0 <= q < j ==> !path_under(pc@, #[trigger] kv[q]),
            decreases kept@.len() - j,
        {
            assert(kv[j as int] == kept@[j as int]@);
            if is_under(&pc, &kept[j]) {
                covered = true;
            }
            j += 1;
        }
        if !covered {
            let ghost before = kept_s@;
            kept_s.push(found[i].clone());
            kept.push(pc);
            assert(text_views(kept_s@) =~= kv.push(fv[i as int]));
            assert forall|q: int| 0 <= q < kept@.len() implies (#[trigger] kept@[q])@ == kept_s@[q]@ by {
                if q < before.len() {
                    assert(kept_s@[q] == before[q]);
                }
            }
        }
        i += 1;
    }
    assert(fv.take(i as int) =~= fv);
    let ghost kv = text_views(kept_s@);
    let bc = chars_of(base);
    let mut out: Vec<String> = Vec::new();
    let mut k: usize = 0;
    while k < kept_s.len()
        invariant
            k <= kept_s.len(),
            bc@ == base@,
            kv == text_views(kept_s@),
            out@.len() == k,
            text_views(out@) == stripped(kv.take(k as int), base@),
        decreases kept_s.len() - k,
    {
        let s = strip_base_of(kept_s[k].as_str(), &bc);
        assert(kv[k as int] == kept_s@[k as int]@);
        let ghost sv = s@;
        assert(sv == strip_base(kv[k as int], base@));
        let ghost prev = out@;
        out.push(s);
        assert(text_views(out@) =~= text_views(prev).push(sv));
        assert(stripped(kv.take(k + 1), base@) =~= stripped(kv.take(k as int), base@).push(sv));
        assert(text_views(out@) =~= stripped(kv.take(k + 1), base@));
        k += 1;
    }
    assert(kv.take(k as int) =~= kv);
    out
}

/// `path` relative to `repo_root` when it lies under it, else `path`
/// itself. Both are taken as already canonical.
pub fn relative_to_root(path: &str, repo_root: &str) -> (r: String)
    ensures
        r@ == strip_base(path@, repo_root@),
{
    let rc = chars_of(repo_root);
    strip_base_of(path, &rc)
}

/// Whether a repository-relative path lies in (or is) the analysis cache
/// directory: one of its `/`-separated segments is the cache's name.
pub open spec fn in_cache_dir(relative: Seq<char>) -> bool {
    crate::text::split_seq(relative, '/').contains(".tracer-cache"@)
}

pub fn is_tracer_cache(relative: &str) -> (r: bool)
    ensures
        r == in_cache_dir(relative@),
{
    let cs = crate::text::chars_of(relative);
    let parts = crate::text::split_chars(&cs, '/');
    let ghost pv = crate::text::views_char(parts@);
    proof {
        reveal_strlit(".tracer-cache");
    }
    let mut i: usize = 0;
    while i < parts.len()
        invariant
            i <= parts@.len(),
            pv == crate::text::views_char(parts@),
            pv == crate::text::split_seq(relative@, '/'),
            crate::git_status::CACHE_DIR_NAME@ == ".tracer-cache"@,
            forall|j: int| 0 <= j < i ==> pv[j] != ".tracer-cache"@,
        decreases parts@.len() - i,
    {
        let seg = crate::text::string_of(&parts[i]);
        if crate::text::str_eq(seg.as_str(), crate::git_status::CACHE_DIR_NAME) {
            assert(pv[i as int] == parts@[i as int]@);
            return true;
        }
        assert(pv[i as int] == parts@[i as int]@);
        i += 1;
    }
    false
}

} // verus!
