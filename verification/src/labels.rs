//! The fixed vocabularies the commands print: complexity ranks and their
//! markers, confidence ordering, ctags kind names, diff status words, the
//! working-state ordering, traversal directions, and the required external
//! binaries with their install instructions.

use crate::text::{str_eq, to_lowercase, unicode_lowercase};
use vstd::prelude::*;

verus! {

broadcast use vstd::string::group_string_axioms;

/// Complexity rank bucket for a CCN total.
pub open spec fn rank_spec(complexity: i64) -> Seq<char> {
    if complexity < 10 {
        "low"@
    } else if complexity < 30 {
        "medium"@
    } else if complexity < 80 {
        "high"@
    } else {
        "critical"@
    }
}

pub fn rank(complexity: i64) -> (r: &'static str)
    ensures
        r@ == rank_spec(complexity),
{
    if complexity < 10 {
        "low"
    } else if complexity < 30 {
        "medium"
    } else if complexity < 80 {
        "high"
    } else {
        "critical"
    }
}

/// The one-character marker `tree` prints for a rank.
pub open spec fn rank_marker_spec(rank: Seq<char>) -> Seq<char> {
    if rank == "low"@ {
        "\u{b7}"@
    } else if rank == "medium"@ {
        "\u{2022}"@
    } else if rank == "high"@ {
        "\u{25cf}"@
    } else if rank == "critical"@ {
        "\u{26a0}"@
    } else {
        "?"@
    }
}

pub fn rank_marker(rank: &str) -> (r: &'static str)
    ensures
        r@ == rank_marker_spec(rank@),
{
    if str_eq(rank, "low") {
        "\u{b7}"
    } else if str_eq(rank, "medium") {
        "\u{2022}"
    } else if str_eq(rank, "high") {
        "\u{25cf}"
    } else if str_eq(rank, "critical") {
        "\u{26a0}"
    } else {
        "?"
    }
}

/// Resolved callers before ambiguous ones.
pub open spec fn confidence_rank_spec(confidence: Seq<char>) -> u8 {
    if confidence == "EXTRACTED"@ {
        0
    } else if confidence == "INFERRED"@ {
        1
    } else {
        2
    }
}

pub fn confidence_rank(confidence: &str) -> (r: u8)
    ensures
        r == confidence_rank_spec(confidence@),
{
    if str_eq(confidence, "EXTRACTED") {
        0
    } else if str_eq(confidence, "INFERRED") {
        1
    } else {
        2
    }
}

/// Human label for a raw ctags kind code; an unknown code is its own label.
pub open spec fn kind_label_spec(raw: Seq<char>) -> Seq<char> {
    if raw == "c"@ {
        "class"@
    } else if raw == "f"@ {
        "function"@
    } else if raw == "m"@ {
        "method"@
    } else if raw == "v"@ {
        "variable"@
    } else if raw == "p"@ {
        "property"@
    } else if raw == "F"@ {
        "field"@
    } else if raw == "i"@ || raw == "I"@ {
        "import"@
    } else if raw == "n"@ {
        "namespace"@
    } else if raw == "s"@ {
        "struct"@
    } else if raw == "e"@ || raw == "g"@ {
        "enum"@
    } else if raw == "t"@ {
        "trait"@
    } else if raw == "u"@ {
        "union"@
    } else {
        raw
    }
}

pub fn kind_label(raw: &str) -> (r: String)
    ensures
        r@ == kind_label_spec(raw@),
{
    let label = if str_eq(raw, "c") {
        "class"
    } else if str_eq(raw, "f") {
        "function"
    } else if str_eq(raw, "m") {
        "method"
    } else if str_eq(raw, "v") {
        "variable"
    } else if str_eq(raw, "p") {
        "property"
    } else if str_eq(raw, "F") {
        "field"
    } else if str_eq(raw, "i") || str_eq(raw, "I") {
        "import"
    } else if str_eq(raw, "n") {
        "namespace"
    } else if str_eq(raw, "s") {
        "struct"
    } else if str_eq(raw, "e") || str_eq(raw, "g") {
        "enum"
    } else if str_eq(raw, "t") {
        "trait"
    } else if str_eq(raw, "u") {
        "union"
    } else {
        raw
    };
    label.to_owned()
}

/// `git diff --name-status` status letter → display word; an unknown letter
/// is shown lowercased.
pub open spec fn status_label_spec(kind: char) -> Seq<char> {
    if kind == 'A' {
        "added"@
    } else if kind == 'M' {
        "modified"@
    } else if kind == 'D' {
        "deleted"@
    } else if kind == 'R' {
        "renamed"@
    } else if kind == 'C' {
        "copied"@
    } else if kind == 'T' {
        "type-changed"@
    } else {
        unicode_lowercase(seq![kind])
    }
}

pub fn status_label(kind: char) -> (r: String)
    ensures
        r@ == status_label_spec(kind),
{
    let fixed = if kind == 'A' {
        "added"
    } else if kind == 'M' {
        "modified"
    } else if kind == 'D' {
        "deleted"
    } else if kind == 'R' {
        "renamed"
    } else if kind == 'C' {
        "copied"
    } else if kind == 'T' {
        "type-changed"
    } else {
        let mut one = String::new();
        crate::text::push_char(&mut one, kind);
        assert(one@ =~= seq![kind]);
        return to_lowercase(one.as_str());
    };
    fixed.to_owned()
}

/// Human grouping order of working states; an unknown state sorts last.
pub open spec fn state_order() -> Seq<Seq<char>> {
    seq!["added"@, "renamed"@, "modified"@, "deleted"@, "untracked"@]
}

/// Position of `state` in the grouping order, or the order's length.
pub open spec fn state_rank_spec(state: Seq<char>) -> nat {
    if state == "added"@ {
        0
    } else if state == "renamed"@ {
        1
    } else if state == "modified"@ {
        2
    } else if state == "deleted"@ {
        3
    } else if state == "untracked"@ {
        4
    } else {
        5
    }
}

pub fn state_rank(state: &str) -> (r: usize)
    ensures
        r == state_rank_spec(state@),
{
    let order = vec!["added", "renamed", "modified", "deleted", "untracked"];
    let mut i: usize = 0;
    while i < order.len()
        invariant
            order@.map_values(|s: &str| s@) == state_order(),
            order@.len() == 5,
            i <= 5,
            forall|j: int| 0 <= j < i ==> state_order()[j] != state@,
        decreases order.len() - i,
    {
        assert(order@.map_values(|s: &str| s@)[i as int] == order@[i as int]@);
        if str_eq(order[i], state) {
            return i;
        }
        i += 1;
    }
    assert(state_order()[0] != state@);
    assert(state_order()[1] != state@);
    assert(state_order()[2] != state@);
    assert(state_order()[3] != state@);
    assert(state_order()[4] != state@);
    5
}

/// Which way the import inversion is read.
#[derive(Clone, Copy, PartialEq, Eq, Structural, Debug)]
pub enum Reach {
    /// Who imports this.
    Importers,
    /// What this imports.
    Imports,
}

/// `usages` reads dependents, `dependencies` reads dependencies; the
/// direction decides every word that changes with it.
#[derive(Clone, Copy, PartialEq, Eq, Structural, Debug)]
pub enum Direction {
    Dependents,
    Dependencies,
}

impl Direction {
    pub fn reach(self) -> (r: Reach)
        ensures
            r == (match self {
                Direction::Dependents => Reach::Importers,
                Direction::Dependencies => Reach::Imports,
            }),
    {
        match self {
            Direction::Dependents => Reach::Importers,
            Direction::Dependencies => Reach::Imports,
        }
    }

    /// The key the rows sit under, and the noun the counts use.
    pub fn rows_key(self) -> (r: &'static str)
        ensures
            r@ == (match self {
                Direction::Dependents => "dependents"@,
                Direction::Dependencies => "dependencies"@,
            }),
    {
        match self {
            Direction::Dependents => "dependents",
            Direction::Dependencies => "dependencies",
        }
    }

    pub fn symbol_heading(self) -> (r: &'static str)
        ensures
            r@ == (match self {
                Direction::Dependents => "depended on by"@,
                Direction::Dependencies => "depends on"@,
            }),
    {
        match self {
            Direction::Dependents => "depended on by",
            Direction::Dependencies => "depends on",
        }
    }

    pub fn path_heading(self) -> (r: &'static str)
        ensures
            r@ == (match self {
                Direction::Dependents => "most-depended-on"@,
                Direction::Dependencies => "highest-coupling"@,
            }),
    {
        match self {
            Direction::Dependents => "most-depended-on",
            Direction::Dependencies => "highest-coupling",
        }
    }

    /// The count keys the path-mode rows carry.
    pub fn direct_key(self) -> (r: &'static str)
        ensures
            r@ == (match self {
                Direction::Dependents => "direct_dependents"@,
                Direction::Dependencies => "direct_dependencies"@,
            }),
    {
        match self {
            Direction::Dependents => "direct_dependents",
            Direction::Dependencies => "direct_dependencies",
        }
    }

    pub fn transitive_key(self) -> (r: &'static str)
        ensures
            r@ == (match self {
                Direction::Dependents => "transitive_dependents"@,
                Direction::Dependencies => "transitive_dependencies"@,
            }),
    {
        match self {
            Direction::Dependents => "transitive_dependents",
            Direction::Dependencies => "transitive_dependencies",
        }
    }
}

/// One required external binary: its name and how to install it on macOS,
/// Linux and Windows.
pub struct RequiredBinary {
    pub name: &'static str,
    pub darwin: &'static str,
    pub linux: &'static str,
    pub windows: &'static str,
}

/// The required binaries, in probe and report order.
pub fn required_binaries() -> (r: Vec<RequiredBinary>)
    ensures
        r@.len() == 5,
        r@[0].name@ == "ast-grep"@,
        r@[1].name@ == "scc"@,
        r@[2].name@ == "ctags"@,
        r@[3].name@ == "git"@,
        r@[4].name@ == "rg"@,
{
    vec![
        RequiredBinary {
            name: "ast-grep",
            darwin: "brew install ast-grep",
            linux: "https://ast-grep.github.io/guide/quick-start.html",
            windows: "scoop install ast-grep",
        },
        RequiredBinary {
            name: "scc",
            darwin: "brew install scc",
            linux: "https://github.com/boyter/scc#installation",
            windows: "scoop install scc",
        },
        RequiredBinary {
            name: "ctags",
            darwin: "brew install universal-ctags",
            linux: "apt install universal-ctags  # or pacman -S ctags",
            windows: "https://github.com/universal-ctags/ctags",
        },
        RequiredBinary {
            name: "git",
            darwin: "xcode-select --install",
            linux: "apt install git  # or your package manager",
            windows: "https://git-scm.com/download/win",
        },
        RequiredBinary {
            name: "rg",
            darwin: "brew install ripgrep",
            linux: "apt install ripgrep  # or your package manager",
            windows: "scoop install ripgrep",
        },
    ]
}

/// The install instruction for a platform: macOS and Windows have their own,
/// every other platform gets the Linux one.
pub fn instruction_for(entry: &RequiredBinary, platform: &str) -> (r: &'static str)
    ensures
        r == (if platform@ == "darwin"@ {
            entry.darwin
        } else if platform@ == "windows"@ {
            entry.windows
        } else {
            entry.linux
        }),
{
    if str_eq(platform, "darwin") {
        entry.darwin
    } else if str_eq(platform, "windows") {
        entry.windows
    } else {
        entry.linux
    }
}

/// Split the required binaries into (missing, present) by the probe result
/// for each, in list order. `found[i]` is whether binary `i` was found.
pub fn check_dependencies(found: &Vec<bool>) -> (r: (Vec<&'static str>, Vec<&'static str>))
    requires
        found@.len() == 5,
    ensures
        r.0@.map_values(|s: &str| s@) == select_by_flag(required_binaries_names(), found@, false),
        r.1@.map_values(|s: &str| s@) == select_by_flag(required_binaries_names(), found@, true),
{
    let all = required_binaries();
    let mut missing: Vec<&'static str> = Vec::new();
    let mut present: Vec<&'static str> = Vec::new();
    let mut i: usize = 0;
    while i < 5
        invariant
            i <= 5,
            all@.len() == 5,
            found@.len() == 5,
            forall|j: int| 0 <= j < 5 ==> #[trigger] all@[j].name@ == required_binaries_names()[j],
            missing@.map_values(|s: &str| s@) == select_by_flag(required_binaries_names().take(i as int), found@, false),
            present@.map_values(|s: &str| s@) == select_by_flag(required_binaries_names().take(i as int), found@, true),
        decreases 5 - i,
    {
        let name = all[i].name;
        proof {
            lemma_select_push(required_binaries_names(), found@, false, i as int);
            lemma_select_push(required_binaries_names(), found@, true, i as int);
        }
        if found[i] {
            present.push(name);
        } else {
            missing.push(name);
        }
        assert(missing@.map_values(|s: &str| s@) =~= select_by_flag(required_binaries_names().take(i + 1), found@, false));
        assert(present@.map_values(|s: &str| s@) =~= select_by_flag(required_binaries_names().take(i + 1), found@, true));
        i += 1;
    }
    assert(required_binaries_names().take(5) =~= required_binaries_names());
    (missing, present)
}

pub open spec fn required_binaries_names() -> Seq<Seq<char>> {
    seq!["ast-grep"@, "scc"@, "ctags"@, "git"@, "rg"@]
}

/// The names whose flag (by position) equals `want`, in order.
pub open spec fn select_by_flag(names: Seq<Seq<char>>, flags: Seq<bool>, want: bool) -> Seq<Seq<char>>
    decreases names.len(),
{
    if names.len() == 0 {
        Seq::empty()
    } else {
        let rest = select_by_flag(names.drop_last(), flags, want);
        if flags[names.len() - 1] == want {
            rest.push(names.last())
        } else {
            rest
        }
    }
}

proof fn lemma_select_push(names: Seq<Seq<char>>, flags: Seq<bool>, want: bool, i: int)
    requires
        0 <= i < names.len(),
    ensures
        select_by_flag(names.take(i + 1), flags, want) == if flags[i] == want {
            select_by_flag(names.take(i), flags, want).push(names[i])
        } else {
            select_by_flag(names.take(i), flags, want)
        },
{
    assert(names.take(i + 1).drop_last() =~= names.take(i));
}

/// Whether `ctags --version` printed the universal-ctags marker, which
/// tells it apart from BSD ctags.
pub fn reports_universal_ctags(version_output: &str) -> (r: bool)
    ensures
        r == crate::text::contains(version_output@, "Universal Ctags"@),
{
    let text = crate::text::chars_of(version_output);
    let marker = crate::text::chars_of("Universal Ctags");
    crate::text::seq_contains(&text, &marker)
}

} // verus!
