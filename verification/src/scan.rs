//! The traversal-and-filter engine: a depth-first walk of a tree snapshot
//! that prunes excluded directories, records unreadable entries as non-fatal
//! errors, and collects the paths of files whose base names match a
//! predicate, in traversal order.

use vstd::prelude::*;

use crate::matching::{MatchSpec, Matcher, env_prefix, name_matches};
use crate::tree::{FsTree, join, join_path};

verus! {

/// The views of a sequence of strings.
pub open spec fn views(v: Seq<String>) -> Seq<Seq<char>> {
    v.map_values(|s: String| s@)
}

/// The two directory names excluded by default: the conventional dependency
/// tree and version-control metadata directories.
pub open spec fn default_excludes() -> Seq<Seq<char>> {
    seq!["node_modules"@, ".git"@]
}

/// The paths of the matching files under the entry `t`, whose own path is
/// `path`, in depth-first traversal order. A directory whose base name is in
/// `ex` is pruned: nothing under it is visited. Only files match; directory
/// and other entries are used for traversal alone.
pub open spec fn scan_entry(t: FsTree, path: Seq<char>, ex: Seq<Seq<char>>, m: MatchSpec) -> Seq<
    Seq<char>,
>
    decreases t,
{
    match t {
        FsTree::File { name } => if name_matches(m, name@) {
            seq![path]
        } else {
            Seq::empty()
        },
        FsTree::Dir { name, children } => if ex.contains(name@) {
            Seq::empty()
        } else {
            scan_children(children@, path, ex, m)
        },
        FsTree::Other { name } => Seq::empty(),
        FsTree::Unreadable { name } => Seq::empty(),
    }
}

/// The matching file paths under a directory's children, visited in order.
pub open spec fn scan_children(
    cs: Seq<FsTree>,
    dir: Seq<char>,
    ex: Seq<Seq<char>>,
    m: MatchSpec,
) -> Seq<Seq<char>>
    decreases cs,
{
    if cs.len() == 0 {
        Seq::empty()
    } else {
        scan_entry(cs[0], join_path(dir, cs[0].spec_name()), ex, m) + scan_children(
            cs.drop_first(),
            dir,
            ex,
            m,
        )
    }
}

/// The paths of the unreadable entries met by the walk, in traversal order.
/// A pruned directory is never read, so nothing under it is reported.
pub open spec fn errors_entry(t: FsTree, path: Seq<char>, ex: Seq<Seq<char>>) -> Seq<Seq<char>>
    decreases t,
{
    match t {
        FsTree::File { name } => Seq::empty(),
        FsTree::Dir { name, children } => if ex.contains(name@) {
            Seq::empty()
        } else {
            errors_children(children@, path, ex)
        },
        FsTree::Other { name } => Seq::empty(),
        FsTree::Unreadable { name } => seq![path],
    }
}

/// The unreadable-entry paths under a directory's children, visited in order.
pub open spec fn errors_children(cs: Seq<FsTree>, dir: Seq<char>, ex: Seq<Seq<char>>) -> Seq<
    Seq<char>,
>
    decreases cs,
{
    if cs.len() == 0 {
        Seq::empty()
    } else {
        errors_entry(cs[0], join_path(dir, cs[0].spec_name()), ex) + errors_children(
            cs.drop_first(),
            dir,
            ex,
        )
    }
}

/// Every file entry the walk visits, as a pair of its path and its base
/// name, in traversal order and with pruning applied — the walk's output
/// before the match predicate is consulted.
pub open spec fn file_entries(t: FsTree, path: Seq<char>, ex: Seq<Seq<char>>) -> Seq<
    (Seq<char>, Seq<char>),
>
    decreases t,
{
    match t {
        FsTree::File { name } => seq![(path, name@)],
        FsTree::Dir { name, children } => if ex.contains(name@) {
            Seq::empty()
        } else {
            file_entries_children(children@, path, ex)
        },
        FsTree::Other { name } => Seq::empty(),
        FsTree::Unreadable { name } => Seq::empty(),
    }
}

/// The file entries under a directory's children, visited in order.
pub open spec fn file_entries_children(cs: Seq<FsTree>, dir: Seq<char>, ex: Seq<Seq<char>>) -> Seq<
    (Seq<char>, Seq<char>),
>
    decreases cs,
{
    if cs.len() == 0 {
        Seq::empty()
    } else {
        file_entries(cs[0], join_path(dir, cs[0].spec_name()), ex) + file_entries_children(
            cs.drop_first(),
            dir,
            ex,
        )
    }
}

/// What a scan of a root returns. A root that is not a directory yields no
/// matches; the walk never starts.
pub open spec fn scan_root(t: FsTree, root: Seq<char>, ex: Seq<Seq<char>>, m: MatchSpec) -> Seq<
    Seq<char>,
>
{
    if t is Dir {
        scan_entry(t, root, ex, m)
    } else {
        Seq::empty()
    }
}

/// What errors a scan of a root records. A root that does not exist or is
/// not a directory records exactly one error, for the root itself.
pub open spec fn errors_root(t: FsTree, root: Seq<char>, ex: Seq<Seq<char>>) -> Seq<Seq<char>> {
    if t is Dir {
        errors_entry(t, root, ex)
    } else {
        seq![root]
    }
}

/// Appending one child to a child list appends that child's matches.
pub proof fn lemma_scan_children_snoc(
    cs: Seq<FsTree>,
    x: FsTree,
    dir: Seq<char>,
    ex: Seq<Seq<char>>,
    m: MatchSpec,
)
    ensures
        scan_children(cs.push(x), dir, ex, m) == scan_children(cs, dir, ex, m) + scan_entry(
            x,
            join_path(dir, x.spec_name()),
            ex,
            m,
        ),
    decreases cs.len(),
{
    if cs.len() == 0 {
        assert(cs.push(x)[0] == x);
        assert(cs.push(x).drop_first() =~= cs);
        assert(scan_children(cs.push(x), dir, ex, m) =~= scan_children(cs, dir, ex, m)
            + scan_entry(x, join_path(dir, x.spec_name()), ex, m));
    } else {
        lemma_scan_children_snoc(cs.drop_first(), x, dir, ex, m);
        assert(cs.push(x)[0] == cs[0]);
        assert(cs.push(x).drop_first() =~= cs.drop_first().push(x));
        assert(scan_children(cs.push(x), dir, ex, m) =~= scan_children(cs, dir, ex, m)
            + scan_entry(x, join_path(dir, x.spec_name()), ex, m));
    }
}

/// Appending one child to a child list appends that child's errors.
pub proof fn lemma_errors_children_snoc(
    cs: Seq<FsTree>,
    x: FsTree,
    dir: Seq<char>,
    ex: Seq<Seq<char>>,
)
    ensures
        errors_children(cs.push(x), dir, ex) == errors_children(cs, dir, ex) + errors_entry(
            x,
            join_path(dir, x.spec_name()),
            ex,
        ),
    decreases cs.len(),
{
    if cs.len() == 0 {
        assert(cs.push(x)[0] == x);
        assert(cs.push(x).drop_first() =~= cs);
        assert(errors_children(cs.push(x), dir, ex) =~= errors_children(cs, dir, ex)
            + errors_entry(x, join_path(dir, x.spec_name()), ex));
    } else {
        lemma_errors_children_snoc(cs.drop_first(), x, dir, ex);
        assert(cs.push(x)[0] == cs[0]);
        assert(cs.push(x).drop_first() =~= cs.drop_first().push(x));
        assert(errors_children(cs.push(x), dir, ex) =~= errors_children(cs, dir, ex)
            + errors_entry(x, join_path(dir, x.spec_name()), ex));
    }
}

/// Membership of a base name in the exclusion list.
fn contains_string(ex: &Vec<String>, name: &String) -> (b: bool)
    ensures
        b == views(ex@).contains(name@),
{
    let mut i: usize = 0;
    while i < ex.len()
        invariant
            i <= ex@.len(),
            forall|k: int| 0 <= k < i ==> views(ex@)[k] != name@,
        decreases ex@.len() - i,
    {
        if name.eq(&ex[i]) {
            proof {
                assert(views(ex@)[i as int] == name@);
            }
            return true;
        }
        i += 1;
    }
    proof {
        assert forall|k: int| 0 <= k < views(ex@).len() implies views(ex@)[k] != name@ by {
            assert(k < i);
        }
    }
    false
}

/// Walks one entry depth-first, appending its matching file paths to `out`
/// and the paths of its unreadable entries to `errs`, in traversal order.
#[verifier::loop_isolation(false)]
fn walk_entry(
    t: &FsTree,
    path: String,
    ex: &Vec<String>,
    m: &Matcher,
    out: &mut Vec<String>,
    errs: &mut Vec<String>,
)
    ensures
        views(final(out)@) == views(old(out)@) + scan_entry(*t, path@, views(ex@), m@),
        views(final(errs)@) == views(old(errs)@) + errors_entry(*t, path@, views(ex@)),
    decreases *t,
{
    let ghost pathv = path@;
    let ghost exv = views(ex@);
    let ghost mv = m@;
    let ghost out0 = out@;
    let ghost errs0 = errs@;
    match t {
        FsTree::File { name } => {
            if m.matches(name.as_str()) {
                out.push(path);
                proof {
                    assert(views(out@) =~= views(out0) + scan_entry(*t, pathv, exv, mv));
                    assert(views(errs@) =~= views(errs0) + errors_entry(*t, pathv, exv));
                }
            } else {
                proof {
                    assert(views(out@) =~= views(out0) + scan_entry(*t, pathv, exv, mv));
                    assert(views(errs@) =~= views(errs0) + errors_entry(*t, pathv, exv));
                }
            }
        },
        FsTree::Dir { name, children } => {
            if contains_string(ex, name) {
                proof {
                    assert(views(out@) =~= views(out0) + scan_entry(*t, pathv, exv, mv));
                    assert(views(errs@) =~= views(errs0) + errors_entry(*t, pathv, exv));
                }
            } else {
                let n = children.len();
                let mut idx: usize = 0;
                while idx < n
                    invariant
                        n == children@.len(),
                        idx <= n,
                        exv == views(ex@),
                        mv == m@,
                        pathv == path@,
                        views(out@) == views(out0) + scan_children(
                            children@.take(idx as int),
                            pathv,
                            exv,
                            mv,
                        ),
                        views(errs@) == views(errs0) + errors_children(
                            children@.take(idx as int),
                            pathv,
                            exv,
                        ),
                    decreases n - idx,
                {
                    let child_path = join(path.as_str(), children[idx].name());
                    proof {
                        assert(decreases_to!(*t => *children));
                        assert(decreases_to!(*children => children@));
                        assert(decreases_to!(children@ => children@[idx as int]));
                        assert(decreases_to!(*t => children@[idx as int]));
                    }
                    walk_entry(&children[idx], child_path, ex, m, out, errs);
                    proof {
                        assert(children@.take(idx + 1) =~= children@.take(idx as int).push(
                            children@[idx as int],
                        ));
                        lemma_scan_children_snoc(
                            children@.take(idx as int),
                            children@[idx as int],
                            pathv,
                            exv,
                            mv,
                        );
                        lemma_errors_children_snoc(
                            children@.take(idx as int),
                            children@[idx as int],
                            pathv,
                            exv,
                        );
                    }
                    idx += 1;
                }
                proof {
                    assert(children@.take(n as int) =~= children@);
                    assert(scan_entry(*t, pathv, exv, mv) == scan_children(
                        children@,
                        pathv,
                        exv,
                        mv,
                    ));
                    assert(errors_entry(*t, pathv, exv) == errors_children(children@, pathv, exv));
                }
            }
        },
        FsTree::Other { name } => {
            proof {
                assert(views(out@) =~= views(out0) + scan_entry(*t, pathv, exv, mv));
                assert(views(errs@) =~= views(errs0) + errors_entry(*t, pathv, exv));
            }
        },
        FsTree::Unreadable { name } => {
            errs.push(path);
            proof {
                assert(views(out@) =~= views(out0) + scan_entry(*t, pathv, exv, mv));
                assert(views(errs@) =~= views(errs0) + errors_entry(*t, pathv, exv));
            }
        },
    }
}

/// What one scan returns: the matching file paths in traversal order, and
/// the paths of the entries that could not be read. Errors are non-fatal:
/// a scan always runs to completion over everything it can read.
pub struct ScanOutcome {
    pub matches: Vec<String>,
    pub errors: Vec<String>,
}

/// The engine: holds the set of directory base names excluded from
/// traversal. Constructed with the two default exclusions; more may be
/// added between scans.
pub struct EnvFinder {
    exclude_dirs: Vec<String>,
}

impl View for EnvFinder {
    type V = Seq<Seq<char>>;

    /// The exclusion set, as the sequence of excluded base names.
    closed spec fn view(&self) -> Seq<Seq<char>> {
        views(self.exclude_dirs@)
    }
}

impl EnvFinder {
    /// A fresh engine holding only the default exclusions.
    pub fn new() -> (r: Self)
        ensures
            r@ == default_excludes(),
    {
        let mut v: Vec<String> = Vec::new();
        v.push("node_modules".to_owned());
        v.push(".git".to_owned());
        proof {
            assert(views(v@) =~= default_excludes());
        }
        EnvFinder { exclude_dirs: v }
    }

    /// Appends one directory base name to the exclusion set. Duplicates are
    /// tolerated; exclusion tests membership only.
    pub fn add_exclude_dir(&mut self, dir: String)
        ensures
            final(self)@ == old(self)@.push(dir@),
    {
        let ghost d = dir@;
        self.exclude_dirs.push(dir);
        proof {
            assert(views(self.exclude_dirs@) =~= views(old(self).exclude_dirs@).push(d));
        }
    }

    /// Scans the tree snapshot `root`, whose path is `root_path`, collecting
    /// every matching file path in traversal order together with the paths
    /// of the entries that could not be read. A root that is not a readable
    /// directory yields no matches and exactly one error.
    pub fn scan(&self, root_path: &str, root: &FsTree, m: &Matcher) -> (r: ScanOutcome)
        ensures
            views(r.matches@) == scan_root(*root, root_path@, self@, m@),
            views(r.errors@) == errors_root(*root, root_path@, self@),
    {
        let mut out: Vec<String> = Vec::new();
        let mut errs: Vec<String> = Vec::new();
        if root.is_dir() {
            walk_entry(root, root_path.to_owned(), &self.exclude_dirs, m, &mut out, &mut errs);
            proof {
                assert(views(out@) =~= scan_root(*root, root_path@, self@, m@));
                assert(views(errs@) =~= errors_root(*root, root_path@, self@));
            }
        } else {
            errs.push(root_path.to_owned());
            proof {
                assert(views(out@) =~= scan_root(*root, root_path@, self@, m@));
                assert(views(errs@) =~= errors_root(*root, root_path@, self@));
            }
        }
        ScanOutcome { matches: out, errors: errs }
    }

    /// Scans for files whose base names begin with `.env`.
    pub fn find_env_files(&self, root_path: &str, root: &FsTree) -> (r: Vec<String>)
        ensures
            views(r@) == scan_root(*root, root_path@, self@, MatchSpec::Prefix(env_prefix())),
    {
        let outcome = self.scan(root_path, root, &Matcher::EnvPrefix);
        outcome.matches
    }

    /// Scans for files whose base names contain `pattern`; an empty pattern
    /// matches every file.
    pub fn find_with_pattern(&self, root_path: &str, root: &FsTree, pattern: &str) -> (r: Vec<
        String,
    >)
        ensures
            views(r@) == scan_root(*root, root_path@, self@, MatchSpec::Substring(pattern@)),
    {
        let m = Matcher::Substring(pattern.to_owned());
        let outcome = self.scan(root_path, root, &m);
        outcome.matches
    }
}

/// Convenience entry point: a default-configuration `.env`-prefix scan with
/// no persistent engine.
pub fn find_env_files(root_path: &str, root: &FsTree) -> (r: Vec<String>)
    ensures
        views(r@) == scan_root(*root, root_path@, default_excludes(), MatchSpec::Prefix(
            env_prefix(),
        )),
{
    let finder = EnvFinder::new();
    finder.find_env_files(root_path, root)
}

} // verus!
