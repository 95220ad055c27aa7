//! The "junk" directories the tool knows how to reclaim.

use vstd::prelude::*;

use crate::text::str_eq;

verus! {

/// A kind of disposable build/cache directory, tied to an ecosystem.
#[derive(Debug, Clone, Copy, PartialEq, Eq)]
pub struct Target {
    /// Directory name to match, e.g. `node_modules`.
    pub dir: &'static str,
    /// Ecosystem label shown in the UI, e.g. `node`.
    pub kind: &'static str,
    /// File that must sit next to the dir for it to count.
    /// `None` means the dir name alone is enough.
    pub marker: Option<&'static str>,
}

/// A target as plain text: directory name, ecosystem label, marker file.
pub type TargetView = (Seq<char>, Seq<char>, Option<Seq<char>>);

pub open spec fn marker_view(m: Option<&'static str>) -> Option<Seq<char>> {
    match m {
        Some(s) => Some(s@),
        None => None,
    }
}

impl View for Target {
    type V = TargetView;

    open spec fn view(&self) -> TargetView {
        (self.dir@, self.kind@, marker_view(self.marker))
    }
}

/// Every directory pattern the tool knows how to clean, in the order they are tried.
pub open spec fn table() -> Seq<TargetView> {
    seq![
        ("node_modules"@, "node"@, Some("package.json"@)),
        ("target"@, "rust"@, Some("Cargo.toml"@)),
        (".next"@, "next"@, Some("package.json"@)),
        (".nuxt"@, "nuxt"@, Some("package.json"@)),
        ("dist"@, "build"@, Some("package.json"@)),
        ("build"@, "build"@, Some("package.json"@)),
        ("__pycache__"@, "python"@, None),
        (".pytest_cache"@, "python"@, None),
        (".mypy_cache"@, "python"@, None),
        (".gradle"@, "java"@, None),
        (".venv"@, "python"@, None),
        ("venv"@, "python"@, None),
        ("vendor"@, "php/go"@, Some("composer.json"@)),
        (".terraform"@, "infra"@, None),
    ]
}

/// The first entry of `tbl` whose directory name is `name`.
pub open spec fn find_dir(tbl: Seq<TargetView>, name: Seq<char>) -> Option<TargetView>
    decreases tbl.len(),
{
    if tbl.len() == 0 {
        None
    } else if tbl[0].0 == name {
        Some(tbl[0])
    } else {
        find_dir(tbl.drop_first(), name)
    }
}

/// No two entries of `tbl` share a directory name.
pub open spec fn dirs_distinct(tbl: Seq<TargetView>) -> bool {
    forall|i: int, j: int|
        0 <= i < tbl.len() && 0 <= j < tbl.len() && i != j ==> #[trigger] tbl[i].0 != #[trigger] tbl[j].0
}

proof fn lemma_find_dir(tbl: Seq<TargetView>, name: Seq<char>)
    requires
        dirs_distinct(tbl),
    ensures
        find_dir(tbl, name) is Some <==> exists|i: int| 0 <= i < tbl.len() && #[trigger] tbl[i].0 == name,
        forall|i: int| 0 <= i < tbl.len() && #[trigger] tbl[i].0 == name ==> find_dir(tbl, name) == Some(tbl[i]),
    decreases tbl.len(),
{
    if tbl.len() > 0 {
        let rest = tbl.drop_first();
        assert(dirs_distinct(rest)) by {
            assert forall|i: int, j: int|
                0 <= i < rest.len() && 0 <= j < rest.len() && i != j implies #[trigger] rest[i].0 != #[trigger] rest[j].0 by {
                assert(rest[i] == tbl[i + 1] && rest[j] == tbl[j + 1]);
            }
        }
        lemma_find_dir(rest, name);
        if tbl[0].0 != name {
            assert forall|i: int| 0 <= i < tbl.len() && #[trigger] tbl[i].0 == name implies 0 <= i - 1 < rest.len()
                && rest[i - 1].0 == name && rest[i - 1] == tbl[i] by {}
            if find_dir(tbl, name) is Some {
                let k = choose|k: int| 0 <= k < rest.len() && #[trigger] rest[k].0 == name;
                assert(tbl[k + 1].0 == name);
            }
        } else {
            assert(tbl[0].0 == name);
        }
    }
}

spec fn absent_from(name: Seq<char>, tbl: Seq<TargetView>, k: int) -> bool
    decreases tbl.len() - k,
{
    k < 0 || k >= tbl.len() || (tbl[k].0 != name && absent_from(name, tbl, k + 1))
}

proof fn lemma_absent_from(name: Seq<char>, tbl: Seq<TargetView>, k: int)
    requires
        0 <= k,
        absent_from(name, tbl, k),
    ensures
        forall|i: int| k <= i < tbl.len() ==> #[trigger] tbl[i].0 != name,
    decreases tbl.len() - k,
{
    if k < tbl.len() {
        lemma_absent_from(name, tbl, k + 1);
    }
}

/// No two known targets share a directory name, so a directory name selects at most one target.
pub proof fn table_dirs_distinct()
    ensures
        dirs_distinct(table()),
{
    reveal_strlit("node_modules");
    reveal_strlit("target");
    reveal_strlit(".next");
    reveal_strlit(".nuxt");
    reveal_strlit("dist");
    reveal_strlit("build");
    reveal_strlit("__pycache__");
    reveal_strlit(".pytest_cache");
    reveal_strlit(".mypy_cache");
    reveal_strlit(".gradle");
    reveal_strlit(".venv");
    reveal_strlit("venv");
    reveal_strlit("vendor");
    reveal_strlit(".terraform");
    let t = table();
    reveal_with_fuel(absent_from, 15);
    assert(t[0].0.len() == 12 && t[0].0[0] == 'n' && t[0].0[1] == 'o' && t[0].0[2] == 'd');
    assert(t[1].0.len() == 6 && t[1].0[0] == 't' && t[1].0[1] == 'a' && t[1].0[2] == 'r');
    assert(t[2].0.len() == 5 && t[2].0[0] == '.' && t[2].0[1] == 'n' && t[2].0[2] == 'e');
    assert(t[3].0.len() == 5 && t[3].0[0] == '.' && t[3].0[1] == 'n' && t[3].0[2] == 'u');
    assert(t[4].0.len() == 4 && t[4].0[0] == 'd' && t[4].0[1] == 'i' && t[4].0[2] == 's');
    assert(t[5].0.len() == 5 && t[5].0[0] == 'b' && t[5].0[1] == 'u' && t[5].0[2] == 'i');
    assert(t[6].0.len() == 11 && t[6].0[0] == '_' && t[6].0[1] == '_' && t[6].0[2] == 'p');
    assert(t[7].0.len() == 13 && t[7].0[0] == '.' && t[7].0[1] == 'p' && t[7].0[2] == 'y');
    assert(t[8].0.len() == 11 && t[8].0[0] == '.' && t[8].0[1] == 'm' && t[8].0[2] == 'y');
    assert(t[9].0.len() == 7 && t[9].0[0] == '.' && t[9].0[1] == 'g' && t[9].0[2] == 'r');
    assert(t[10].0.len() == 5 && t[10].0[0] == '.' && t[10].0[1] == 'v' && t[10].0[2] == 'e');
    assert(t[11].0.len() == 4 && t[11].0[0] == 'v' && t[11].0[1] == 'e' && t[11].0[2] == 'n');
    assert(t[12].0.len() == 6 && t[12].0[0] == 'v' && t[12].0[1] == 'e' && t[12].0[2] == 'n');
    assert(t[13].0.len() == 10 && t[13].0[0] == '.' && t[13].0[1] == 't' && t[13].0[2] == 'e');
    assert(absent_from(t[0].0, t, 1));
    assert(absent_from(t[1].0, t, 2));
    assert(absent_from(t[2].0, t, 3));
    assert(absent_from(t[3].0, t, 4));
    assert(absent_from(t[4].0, t, 5));
    assert(absent_from(t[5].0, t, 6));
    assert(absent_from(t[6].0, t, 7));
    assert(absent_from(t[7].0, t, 8));
    assert(absent_from(t[8].0, t, 9));
    assert(absent_from(t[9].0, t, 10));
    assert(absent_from(t[10].0, t, 11));
    assert(absent_from(t[11].0, t, 12));
    assert(absent_from(t[12].0, t, 13));
    assert forall|i: int, j: int|
        0 <= i < t.len() && 0 <= j < t.len() && i != j implies #[trigger] t[i].0 != #[trigger] t[j].0 by {
        let (lo, hi) = if i < j { (i, j) } else { (j, i) };
        lemma_absent_from(t[lo].0, t, lo + 1);
        assert(t[hi].0 != t[lo].0);
    }
}

/// A directory name is matched exactly when some known target has that name, and the target
/// found is the one with that name.
pub proof fn match_dir_finds_the_named_target(name: Seq<char>)
    ensures
        find_dir(table(), name) is Some <==> exists|i: int| 0 <= i < table().len() && #[trigger] table()[i].0 == name,
        forall|i: int| 0 <= i < table().len() && #[trigger] table()[i].0 == name ==> find_dir(table(), name) == Some(table()[i]),
{
    table_dirs_distinct();
    lemma_find_dir(table(), name);
}

/// The directories the tool cleans and the file each needs beside it, as the documentation
/// lists them: `node_modules`, `.next`, `.nuxt`, `dist` and `build` need `package.json`,
/// `target` needs `Cargo.toml`, `vendor` needs `composer.json`, and `__pycache__`,
/// `.pytest_cache`, `.venv`, `.mypy_cache`, `venv`, `.gradle` and `.terraform` need none.
/// `None` for any other name.
pub open spec fn documented_marker(name: Seq<char>) -> Option<Option<Seq<char>>> {
    if name == "node_modules"@ || name == ".next"@ || name == ".nuxt"@ || name == "dist"@ || name == "build"@ {
        Some(Some("package.json"@))
    } else if name == "target"@ {
        Some(Some("Cargo.toml"@))
    } else if name == "vendor"@ {
        Some(Some("composer.json"@))
    } else if name == "__pycache__"@ || name == ".pytest_cache"@ || name == ".venv"@ || name == ".mypy_cache"@
        || name == "venv"@ || name == ".gradle"@ || name == ".terraform"@ {
        Some(None)
    } else {
        None
    }
}

/// The table agrees with the documentation: a name matches exactly when it is a documented
/// directory, the target found carries that name, and its marker is the documented one.
pub proof fn table_follows_documentation(name: Seq<char>)
    ensures
        match find_dir(table(), name) {
            Some(tv) => tv.0 == name && documented_marker(name) == Some(tv.2),
            None => documented_marker(name) is None,
        },
{
    reveal_strlit("node_modules");
    reveal_strlit("target");
    reveal_strlit(".next");
    reveal_strlit(".nuxt");
    reveal_strlit("dist");
    reveal_strlit("build");
    reveal_strlit("__pycache__");
    reveal_strlit(".pytest_cache");
    reveal_strlit(".mypy_cache");
    reveal_strlit(".gradle");
    reveal_strlit(".venv");
    reveal_strlit("venv");
    reveal_strlit("vendor");
    reveal_strlit(".terraform");
    assert("node_modules"@.len() == 12 && "node_modules"@[0] == 'n' && "node_modules"@[1] == 'o' && "node_modules"@[2] == 'd');
    assert("target"@.len() == 6 && "target"@[0] == 't' && "target"@[1] == 'a' && "target"@[2] == 'r');
    assert(".next"@.len() == 5 && ".next"@[0] == '.' && ".next"@[1] == 'n' && ".next"@[2] == 'e');
    assert(".nuxt"@.len() == 5 && ".nuxt"@[0] == '.' && ".nuxt"@[1] == 'n' && ".nuxt"@[2] == 'u');
    assert("dist"@.len() == 4 && "dist"@[0] == 'd' && "dist"@[1] == 'i' && "dist"@[2] == 's');
    assert("build"@.len() == 5 && "build"@[0] == 'b' && "build"@[1] == 'u' && "build"@[2] == 'i');
    assert("__pycache__"@.len() == 11 && "__pycache__"@[0] == '_' && "__pycache__"@[1] == '_' && "__pycache__"@[2] == 'p');
    assert(".pytest_cache"@.len() == 13 && ".pytest_cache"@[0] == '.' && ".pytest_cache"@[1] == 'p' && ".pytest_cache"@[2] == 'y');
    assert(".mypy_cache"@.len() == 11 && ".mypy_cache"@[0] == '.' && ".mypy_cache"@[1] == 'm' && ".mypy_cache"@[2] == 'y');
    assert(".gradle"@.len() == 7 && ".gradle"@[0] == '.' && ".gradle"@[1] == 'g' && ".gradle"@[2] == 'r');
    assert(".venv"@.len() == 5 && ".venv"@[0] == '.' && ".venv"@[1] == 'v' && ".venv"@[2] == 'e');
    assert("venv"@.len() == 4 && "venv"@[0] == 'v' && "venv"@[1] == 'e' && "venv"@[2] == 'n');
    assert("vendor"@.len() == 6 && "vendor"@[0] == 'v' && "vendor"@[1] == 'e' && "vendor"@[2] == 'n');
    assert(".terraform"@.len() == 10 && ".terraform"@[0] == '.' && ".terraform"@[1] == 't' && ".terraform"@[2] == 'e');
    match_dir_finds_the_named_target(name);
    let t = table();
    assert(t.len() == 14);
    assert(documented_marker(t[0].0) == Some(t[0].2));
    assert(documented_marker(t[1].0) == Some(t[1].2));
    assert(documented_marker(t[2].0) == Some(t[2].2));
    assert(documented_marker(t[3].0) == Some(t[3].2));
    assert(documented_marker(t[4].0) == Some(t[4].2));
    assert(documented_marker(t[5].0) == Some(t[5].2));
    assert(documented_marker(t[6].0) == Some(t[6].2));
    assert(documented_marker(t[7].0) == Some(t[7].2));
    assert(documented_marker(t[8].0) == Some(t[8].2));
    assert(documented_marker(t[9].0) == Some(t[9].2));
    assert(documented_marker(t[10].0) == Some(t[10].2));
    assert(documented_marker(t[11].0) == Some(t[11].2));
    assert(documented_marker(t[12].0) == Some(t[12].2));
    assert(documented_marker(t[13].0) == Some(t[13].2));
    if find_dir(t, name) is Some {
        let i = choose|i: int| 0 <= i < t.len() && #[trigger] t[i].0 == name;
        assert(find_dir(t, name) == Some(t[i]));
        assert(documented_marker(t[i].0) == Some(t[i].2));
    } else {
        if documented_marker(name) is Some {
            assert(t[0].0 != name && t[1].0 != name && t[2].0 != name && t[3].0 != name);
            assert(t[4].0 != name && t[5].0 != name && t[6].0 != name && t[7].0 != name);
            assert(t[8].0 != name && t[9].0 != name && t[10].0 != name && t[11].0 != name);
            assert(t[12].0 != name && t[13].0 != name);
        }
    }
}

/// Every directory pattern reclaim knows how to clean.
pub fn targets() -> (t: Vec<Target>)
    ensures
        t@.len() == table().len(),
        forall|i: int| 0 <= i < t@.len() ==> #[trigger] t@[i]@ == table()[i],
{
    vec![
        Target { dir: "node_modules", kind: "node", marker: Some("package.json") },
        Target { dir: "target", kind: "rust", marker: Some("Cargo.toml") },
        Target { dir: ".next", kind: "next", marker: Some("package.json") },
        Target { dir: ".nuxt", kind: "nuxt", marker: Some("package.json") },
        Target { dir: "dist", kind: "build", marker: Some("package.json") },
        Target { dir: "build", kind: "build", marker: Some("package.json") },
        Target { dir: "__pycache__", kind: "python", marker: None },
        Target { dir: ".pytest_cache", kind: "python", marker: None },
        Target { dir: ".mypy_cache", kind: "python", marker: None },
        Target { dir: ".gradle", kind: "java", marker: None },
        Target { dir: ".venv", kind: "python", marker: None },
        Target { dir: "venv", kind: "python", marker: None },
        Target { dir: "vendor", kind: "php/go", marker: Some("composer.json") },
        Target { dir: ".terraform", kind: "infra", marker: None },
    ]
}

/// Return the matching target for a directory name, if any.
pub fn match_dir(name: &str) -> (r: Option<Target>)
    ensures
        match r {
            Some(t) => find_dir(table(), name@) == Some(t@),
            None => find_dir(table(), name@) is None,
        },
        match r {
            Some(t) => t.dir@ == name@ && documented_marker(name@) == Some(marker_view(t.marker)),
            None => documented_marker(name@) is None,
        },
{
    let all = targets();
    let n = all.len();
    let mut i: usize = 0;
    assert(table().skip(0) =~= table());
    while i < n
        invariant
            n == all@.len(),
            n == table().len(),
            i <= n,
            forall|k: int| 0 <= k < n ==> #[trigger] all@[k]@ == table()[k],
            find_dir(table(), name@) == find_dir(table().skip(i as int), name@),
        decreases n - i,
    {
        let t = all[i];
        let ghost rest = table().skip(i as int);
        assert(rest.drop_first() =~= table().skip(i + 1));
        assert(rest[0] == table()[i as int]);
        assert(t@ == table()[i as int]);
        if str_eq(t.dir, name) {
            proof {
                table_follows_documentation(name@);
            }
            return Some(t);
        }
        assert(find_dir(rest, name@) == find_dir(rest.drop_first(), name@));
        i = i + 1;
    }
    proof {
        table_follows_documentation(name@);
    }
    None
}

} // verus!
