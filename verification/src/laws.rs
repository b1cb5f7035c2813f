//! The stated guarantees of the engine: what a scan returns is exactly the
//! walk's file output filtered by the predicate, pruning removes a subtree
//! without any other effect, unreadable entries cost nothing but their own
//! error record, and a scan is a function of the snapshot and configuration
//! alone.

use vstd::prelude::*;

use crate::matching::{MatchSpec, is_prefix_of, name_matches};
use crate::scan::{
    errors_children, errors_entry, errors_root, file_entries, file_entries_children, scan_children,
    scan_entry, scan_root, views,
};
use crate::tree::{FsTree, all_well_formed, distinct_names, join_path, lemma_all_wf_index};

verus! {

/// The match predicate lifted to a (path, base name) file entry.
pub open spec fn matching_pred(m: MatchSpec) -> spec_fn((Seq<char>, Seq<char>)) -> bool {
    |pn: (Seq<char>, Seq<char>)| name_matches(m, pn.1)
}

/// The path of a (path, base name) file entry.
pub open spec fn path_of() -> spec_fn((Seq<char>, Seq<char>)) -> Seq<char> {
    |pn: (Seq<char>, Seq<char>)| pn.0
}

/// A scan is the walk's file sequence, filtered by the match predicate on
/// base names, reduced to paths — order included. Everything the filter does
/// is captured by this equation.
pub proof fn lemma_scan_is_filter(t: FsTree, path: Seq<char>, ex: Seq<Seq<char>>, m: MatchSpec)
    ensures
        scan_entry(t, path, ex, m) == file_entries(t, path, ex).filter(
            matching_pred(m),
        ).map_values(path_of()),
    decreases t,
{
    reveal(Seq::filter);
    let pred = matching_pred(m);
    match t {
        FsTree::File { name } => {
            let fs = file_entries(t, path, ex);
            assert(fs.drop_last() =~= Seq::<(Seq<char>, Seq<char>)>::empty());
            assert(fs.drop_last().filter(pred) =~= Seq::<(Seq<char>, Seq<char>)>::empty());
            assert(fs.last() == (path, name@));
            if name_matches(m, name@) {
                assert(fs.filter(pred) =~= seq![(path, name@)]);
                assert(scan_entry(t, path, ex, m) =~= fs.filter(pred).map_values(path_of()));
            } else {
                assert(fs.filter(pred) =~= Seq::<(Seq<char>, Seq<char>)>::empty());
                assert(scan_entry(t, path, ex, m) =~= fs.filter(pred).map_values(path_of()));
            }
        },
        FsTree::Dir { name, children } => {
            if ex.contains(name@) {
                assert(scan_entry(t, path, ex, m) =~= file_entries(t, path, ex).filter(
                    pred,
                ).map_values(path_of()));
            } else {
                lemma_scan_children_is_filter(children@, path, ex, m);
            }
        },
        FsTree::Other { name } => {
            assert(scan_entry(t, path, ex, m) =~= file_entries(t, path, ex).filter(
                pred,
            ).map_values(path_of()));
        },
        FsTree::Unreadable { name } => {
            assert(scan_entry(t, path, ex, m) =~= file_entries(t, path, ex).filter(
                pred,
            ).map_values(path_of()));
        },
    }
}

/// The filter equation over a directory's children.
pub proof fn lemma_scan_children_is_filter(
    cs: Seq<FsTree>,
    dir: Seq<char>,
    ex: Seq<Seq<char>>,
    m: MatchSpec,
)
    ensures
        scan_children(cs, dir, ex, m) == file_entries_children(cs, dir, ex).filter(
            matching_pred(m),
        ).map_values(path_of()),
    decreases cs,
{
    reveal(Seq::filter);
    let pred = matching_pred(m);
    if cs.len() == 0 {
        assert(scan_children(cs, dir, ex, m) =~= file_entries_children(cs, dir, ex).filter(
            pred,
        ).map_values(path_of()));
    } else {
        let b0 = join_path(dir, cs[0].spec_name());
        let fa = file_entries(cs[0], b0, ex);
        let fb = file_entries_children(cs.drop_first(), dir, ex);
        lemma_scan_is_filter(cs[0], b0, ex, m);
        lemma_scan_children_is_filter(cs.drop_first(), dir, ex, m);
        assert((fa + fb).filter(pred) == fa.filter(pred) + fb.filter(pred));
        assert((fa.filter(pred) + fb.filter(pred)).map_values(path_of()) =~= fa.filter(
            pred,
        ).map_values(path_of()) + fb.filter(pred).map_values(path_of()));
        assert(scan_children(cs, dir, ex, m) =~= file_entries_children(cs, dir, ex).filter(
            pred,
        ).map_values(path_of()));
    }
}

/// Every element of a filtered sequence is an element of the sequence it
/// was filtered from.
proof fn lemma_filter_subset<A>(s: Seq<A>, pred: spec_fn(A) -> bool)
    ensures
        forall|k: int|
            0 <= k < s.filter(pred).len() ==> s.contains(#[trigger] s.filter(pred)[k]),
    decreases s.len(),
{
    reveal(Seq::filter);
    if s.len() > 0 {
        lemma_filter_subset(s.drop_last(), pred);
        let f = s.filter(pred);
        let fd = s.drop_last().filter(pred);
        assert forall|k: int| 0 <= k < f.len() implies s.contains(#[trigger] f[k]) by {
            if k < fd.len() {
                assert(s.drop_last().contains(fd[k]));
                let j = choose|j: int|
                    0 <= j < s.drop_last().len() && s.drop_last()[j] == fd[k];
                assert(s[j] == fd[k]);
                assert(f[k] == fd[k]);
            } else {
                assert(f[k] == s.last());
                assert(s[s.len() - 1] == s.last());
            }
        }
    }
}

/// No false positives: every path a scan returns is the path of a file
/// entry the walk visited whose base name satisfies the predicate — never a
/// directory, never a non-matching name.
pub proof fn lemma_no_false_positives(
    t: FsTree,
    path: Seq<char>,
    ex: Seq<Seq<char>>,
    m: MatchSpec,
    k: int,
)
    requires
        0 <= k < scan_entry(t, path, ex, m).len(),
    ensures
        exists|j: int|
            0 <= j < file_entries(t, path, ex).len() && file_entries(t, path, ex)[j].0
                == scan_entry(t, path, ex, m)[k] && name_matches(
                m,
                file_entries(t, path, ex)[j].1,
            ),
{
    lemma_scan_is_filter(t, path, ex, m);
    let fs = file_entries(t, path, ex);
    let pred = matching_pred(m);
    let filtered = fs.filter(pred);
    lemma_filter_subset(fs, pred);
    let scan = scan_entry(t, path, ex, m);
    assert(scan[k] == filtered.map_values(path_of())[k]);
    assert(scan[k] == path_of()(filtered[k]));
    assert(pred(filtered[k]));
    assert(fs.contains(filtered[k]));
    let j = choose|j: int| 0 <= j < fs.len() && fs[j] == filtered[k];
    assert(0 <= j < file_entries(t, path, ex).len() && file_entries(t, path, ex)[j].0
        == scan_entry(t, path, ex, m)[k] && name_matches(m, file_entries(t, path, ex)[j].1));
}

/// Completeness, membership half: every file entry the walk visits whose
/// base name satisfies the predicate has its path in the scan's output.
pub proof fn lemma_completeness(t: FsTree, path: Seq<char>, ex: Seq<Seq<char>>, m: MatchSpec)
    ensures
        forall|j: int|
            0 <= j < file_entries(t, path, ex).len() && name_matches(
                m,
                (#[trigger] file_entries(t, path, ex)[j]).1,
            ) ==> scan_entry(t, path, ex, m).contains(file_entries(t, path, ex)[j].0),
{
    lemma_scan_is_filter(t, path, ex, m);
    let fs = file_entries(t, path, ex);
    let pred = matching_pred(m);
    let filtered = fs.filter(pred);
    let scan = scan_entry(t, path, ex, m);
    assert forall|j: int|
        0 <= j < fs.len() && name_matches(m, (#[trigger] fs[j]).1) implies scan.contains(
        fs[j].0,
    ) by {
        assert(pred(fs[j]));
        assert(filtered.contains(fs[j]));
        let i = choose|i: int| 0 <= i < filtered.len() && filtered[i] == fs[j];
        assert(scan[i] == path_of()(filtered[i]));
        assert(scan[i] == fs[j].0);
    }
}

/// Splitting a child list splits its matches.
pub proof fn lemma_scan_children_concat(
    a: Seq<FsTree>,
    b: Seq<FsTree>,
    dir: Seq<char>,
    ex: Seq<Seq<char>>,
    m: MatchSpec,
)
    ensures
        scan_children(a + b, dir, ex, m) == scan_children(a, dir, ex, m) + scan_children(
            b,
            dir,
            ex,
            m,
        ),
    decreases a.len(),
{
    if a.len() == 0 {
        assert(a + b =~= b);
        assert(scan_children(a, dir, ex, m) + scan_children(b, dir, ex, m) =~= scan_children(
            b,
            dir,
            ex,
            m,
        ));
    } else {
        assert((a + b)[0] == a[0]);
        assert((a + b).drop_first() =~= a.drop_first() + b);
        lemma_scan_children_concat(a.drop_first(), b, dir, ex, m);
        assert(scan_children(a + b, dir, ex, m) =~= scan_children(a, dir, ex, m)
            + scan_children(b, dir, ex, m));
    }
}

/// Splitting a child list splits its error records.
pub proof fn lemma_errors_children_concat(
    a: Seq<FsTree>,
    b: Seq<FsTree>,
    dir: Seq<char>,
    ex: Seq<Seq<char>>,
)
    ensures
        errors_children(a + b, dir, ex) == errors_children(a, dir, ex) + errors_children(
            b,
            dir,
            ex,
        ),
    decreases a.len(),
{
    if a.len() == 0 {
        assert(a + b =~= b);
        assert(errors_children(a, dir, ex) + errors_children(b, dir, ex) =~= errors_children(
            b,
            dir,
            ex,
        ));
    } else {
        assert((a + b)[0] == a[0]);
        assert((a + b).drop_first() =~= a.drop_first() + b);
        lemma_errors_children_concat(a.drop_first(), b, dir, ex);
        assert(errors_children(a + b, dir, ex) =~= errors_children(a, dir, ex)
            + errors_children(b, dir, ex));
    }
}

/// Pruning correctness: a directory child whose base name is excluded
/// contributes nothing — the scan's matches and errors are those of the
/// same directory with that child absent, however its descendants would
/// have matched.
pub proof fn lemma_pruning_correctness(
    cs: Seq<FsTree>,
    i: int,
    dir: Seq<char>,
    ex: Seq<Seq<char>>,
    m: MatchSpec,
)
    requires
        0 <= i < cs.len(),
        cs[i] is Dir,
        ex.contains(cs[i].spec_name()),
    ensures
        scan_children(cs, dir, ex, m) == scan_children(cs.remove(i), dir, ex, m),
        errors_children(cs, dir, ex) == errors_children(cs.remove(i), dir, ex),
{
    let pre = cs.subrange(0, i);
    let mid = seq![cs[i]];
    let post = cs.subrange(i + 1, cs.len() as int);
    assert(cs =~= pre + (mid + post));
    assert(cs.remove(i) =~= pre + post);
    lemma_scan_children_concat(pre, mid + post, dir, ex, m);
    lemma_scan_children_concat(mid, post, dir, ex, m);
    lemma_scan_children_concat(pre, post, dir, ex, m);
    assert(mid[0] == cs[i]);
    assert(Seq::<FsTree>::empty().push(cs[i]) =~= mid);
    crate::scan::lemma_scan_children_snoc(Seq::<FsTree>::empty(), cs[i], dir, ex, m);
    assert(scan_entry(cs[i], join_path(dir, cs[i].spec_name()), ex, m) =~= Seq::<
        Seq<char>,
    >::empty());
    assert(scan_children(mid, dir, ex, m) =~= Seq::<Seq<char>>::empty());
    assert(scan_children(cs, dir, ex, m) =~= scan_children(cs.remove(i), dir, ex, m));
    lemma_errors_children_concat(pre, mid + post, dir, ex);
    lemma_errors_children_concat(mid, post, dir, ex);
    lemma_errors_children_concat(pre, post, dir, ex);
    crate::scan::lemma_errors_children_snoc(Seq::<FsTree>::empty(), cs[i], dir, ex);
    assert(errors_entry(cs[i], join_path(dir, cs[i].spec_name()), ex) =~= Seq::<
        Seq<char>,
    >::empty());
    assert(errors_children(mid, dir, ex) =~= Seq::<Seq<char>>::empty());
    assert(errors_children(cs, dir, ex) =~= errors_children(cs.remove(i), dir, ex));
}

/// A pruned root: a root directory whose own base name is excluded yields
/// nothing at all.
pub proof fn lemma_pruning_root(t: FsTree, root: Seq<char>, ex: Seq<Seq<char>>, m: MatchSpec)
    requires
        t is Dir,
        ex.contains(t.spec_name()),
    ensures
        scan_root(t, root, ex, m) == Seq::<Seq<char>>::empty(),
        errors_root(t, root, ex) == Seq::<Seq<char>>::empty(),
{
}

/// Error tolerance: an unreadable child costs exactly its own error record;
/// the matches are those of the same directory with that child absent.
pub proof fn lemma_error_tolerance(
    cs: Seq<FsTree>,
    i: int,
    dir: Seq<char>,
    ex: Seq<Seq<char>>,
    m: MatchSpec,
)
    requires
        0 <= i < cs.len(),
        cs[i] is Unreadable,
    ensures
        scan_children(cs, dir, ex, m) == scan_children(cs.remove(i), dir, ex, m),
        errors_children(cs, dir, ex).contains(join_path(dir, cs[i].spec_name())),
{
    let pre = cs.subrange(0, i);
    let mid = seq![cs[i]];
    let post = cs.subrange(i + 1, cs.len() as int);
    assert(cs =~= pre + (mid + post));
    assert(cs.remove(i) =~= pre + post);
    lemma_scan_children_concat(pre, mid + post, dir, ex, m);
    lemma_scan_children_concat(mid, post, dir, ex, m);
    lemma_scan_children_concat(pre, post, dir, ex, m);
    assert(mid[0] == cs[i]);
    assert(Seq::<FsTree>::empty().push(cs[i]) =~= mid);
    crate::scan::lemma_scan_children_snoc(Seq::<FsTree>::empty(), cs[i], dir, ex, m);
    assert(scan_entry(cs[i], join_path(dir, cs[i].spec_name()), ex, m) =~= Seq::<
        Seq<char>,
    >::empty());
    assert(scan_children(mid, dir, ex, m) =~= Seq::<Seq<char>>::empty());
    assert(scan_children(cs, dir, ex, m) =~= scan_children(cs.remove(i), dir, ex, m));
    lemma_errors_children_concat(pre, mid + post, dir, ex);
    lemma_errors_children_concat(mid, post, dir, ex);
    crate::scan::lemma_errors_children_snoc(Seq::<FsTree>::empty(), cs[i], dir, ex);
    assert(errors_entry(cs[i], join_path(dir, cs[i].spec_name()), ex) =~= seq![
        join_path(dir, cs[i].spec_name()),
    ]);
    assert(errors_children(mid, dir, ex) =~= seq![join_path(dir, cs[i].spec_name())]);
    let all = errors_children(cs, dir, ex);
    let k = errors_children(pre, dir, ex).len() as int;
    assert(all[k] == join_path(dir, cs[i].spec_name()));
}

/// Idempotence: two scans of one unmodified snapshot under one
/// configuration return the same matches in the same order, and the same
/// errors — a scan is a function of the snapshot and the configuration
/// alone.
pub proof fn lemma_scan_idempotent(
    r1: Seq<String>,
    e1: Seq<String>,
    r2: Seq<String>,
    e2: Seq<String>,
    t: FsTree,
    root: Seq<char>,
    ex: Seq<Seq<char>>,
    m: MatchSpec,
)
    requires
        views(r1) == scan_root(t, root, ex, m),
        views(e1) == errors_root(t, root, ex),
        views(r2) == scan_root(t, root, ex, m),
        views(e2) == errors_root(t, root, ex),
    ensures
        views(r1) == views(r2),
        views(e1) == views(e2),
{
}


/// `p` lies at or strictly below the directory whose path is `base`.
pub open spec fn extends_dir(p: Seq<char>, base: Seq<char>) -> bool {
    p == base || is_prefix_of(base.push('/'), p)
}

/// A leading segment of a concatenation is a prefix of it.
proof fn lemma_prefix_of_concat(a: Seq<char>, b: Seq<char>)
    ensures
        is_prefix_of(a, a + b),
{
    assert((a + b).subrange(0, a.len() as int) =~= a);
}

/// Being a prefix is transitive.
proof fn lemma_prefix_trans(a: Seq<char>, b: Seq<char>, c: Seq<char>)
    requires
        is_prefix_of(a, b),
        is_prefix_of(b, c),
    ensures
        is_prefix_of(a, c),
{
    assert forall|k: int| 0 <= k < a.len() implies c.subrange(0, a.len() as int)[k] == a[k] by {
        assert(c.subrange(0, b.len() as int)[k] == c[k]);
        assert(b.subrange(0, a.len() as int)[k] == b[k]);
    }
    assert(c.subrange(0, a.len() as int) =~= a);
}

/// What a path below `join_path(base, n)` looks like: it carries the
/// characters of `n` right after `base` and the separator, and either ends
/// with `n` or continues with another separator.
proof fn lemma_component_facts(base: Seq<char>, n: Seq<char>, p: Seq<char>)
    requires
        extends_dir(p, join_path(base, n)),
    ensures
        p.len() >= base.len() + 1 + n.len(),
        forall|k: int| 0 <= k < n.len() ==> p[base.len() + 1 + k] == n[k],
        p.len() == base.len() + 1 + n.len() || p[(base.len() + 1 + n.len()) as int] == '/',
{
    let b = join_path(base, n);
    assert(b.len() == base.len() + 1 + n.len());
    if p == b {
        assert forall|k: int| 0 <= k < n.len() implies p[base.len() + 1 + k] == n[k] by {
            assert(b[base.len() + 1 + k] == n[k]);
        }
    } else {
        let bp = b.push('/');
        assert(p.subrange(0, bp.len() as int) == bp);
        assert forall|k: int| 0 <= k < n.len() implies p[base.len() + 1 + k] == n[k] by {
            assert(p.subrange(0, bp.len() as int)[base.len() + 1 + k] == p[base.len() + 1 + k]);
            assert(bp[base.len() + 1 + k] == b[base.len() + 1 + k]);
            assert(b[base.len() + 1 + k] == n[k]);
        }
        assert(p.subrange(0, bp.len() as int)[(base.len() + 1 + n.len()) as int] == p[(base.len()
            + 1 + n.len()) as int]);
        assert(bp[(base.len() + 1 + n.len()) as int] == '/');
    }
}

/// Paths below sibling directories with distinct separator-free names never
/// coincide.
proof fn lemma_separate_subtrees(
    base: Seq<char>,
    n1: Seq<char>,
    n2: Seq<char>,
    p: Seq<char>,
    q: Seq<char>,
)
    requires
        n1 != n2,
        n1.len() > 0,
        n2.len() > 0,
        !n1.contains('/'),
        !n2.contains('/'),
        extends_dir(p, join_path(base, n1)),
        extends_dir(q, join_path(base, n2)),
    ensures
        p != q,
{
    lemma_component_facts(base, n1, p);
    lemma_component_facts(base, n2, q);
    if p == q {
        let l: int = base.len() as int + 1;
        if n1.len() == n2.len() {
            assert forall|k: int| 0 <= k < n1.len() implies n1[k] == n2[k] by {
                assert(p[l + k] == n1[k]);
                assert(q[l + k] == n2[k]);
            }
            assert(n1 =~= n2);
            assert(false);
        } else if n1.len() < n2.len() {
            assert(p.len() >= l + n2.len());
            assert(p[l + n1.len()] == '/');
            assert(q[l + n1.len()] == n2[n1.len() as int]);
            assert(0 <= n1.len() < n2.len() && n2[n1.len() as int] == '/');
            assert(n2.contains('/'));
            assert(false);
        } else {
            assert(q.len() >= l + n1.len());
            assert(q[l + n2.len()] == '/');
            assert(p[l + n2.len()] == n1[n2.len() as int]);
            assert(0 <= n2.len() < n1.len() && n1[n2.len() as int] == '/');
            assert(n1.contains('/'));
            assert(false);
        }
    }
}

/// Exactly once: on a well-formed snapshot a scan never repeats a path, so
/// together with the membership half of completeness each reachable
/// matching file appears exactly once. Every returned path also lies at or
/// below the scanned entry.
pub proof fn lemma_scan_entry_unique(t: FsTree, path: Seq<char>, ex: Seq<Seq<char>>, m: MatchSpec)
    requires
        t.well_formed(),
    ensures
        scan_entry(t, path, ex, m).no_duplicates(),
        forall|k: int|
            0 <= k < scan_entry(t, path, ex, m).len() ==> extends_dir(
                #[trigger] scan_entry(t, path, ex, m)[k],
                path,
            ),
    decreases t,
{
    match t {
        FsTree::File { name } => {
        },
        FsTree::Dir { name, children } => {
            if !ex.contains(name@) {
                lemma_scan_children_unique(children@, path, ex, m);
                let scan = scan_entry(t, path, ex, m);
                assert(scan == scan_children(children@, path, ex, m));
                assert forall|k: int| 0 <= k < scan.len() implies extends_dir(
                    #[trigger] scan[k],
                    path,
                ) by {
                    let i = choose|i: int|
                        0 <= i < children@.len() && extends_dir(
                            scan_children(children@, path, ex, m)[k],
                            join_path(path, children@[i].spec_name()),
                        );
                    let n = children@[i].spec_name();
                    let b = join_path(path, n);
                    lemma_prefix_of_concat(path.push('/'), n);
                    if scan[k] == b {
                        assert(is_prefix_of(path.push('/'), scan[k]));
                    } else {
                        assert(is_prefix_of(b.push('/'), scan[k]));
                        assert(b.push('/').subrange(0, b.len() as int) =~= b);
                        assert(is_prefix_of(b, b.push('/')));
                        lemma_prefix_trans(path.push('/'), b, b.push('/'));
                        lemma_prefix_trans(path.push('/'), b.push('/'), scan[k]);
                    }
                }
            }
        },
        FsTree::Other { name } => {
        },
        FsTree::Unreadable { name } => {
        },
    }
}

/// Exactly once, over a directory's children: no duplicate paths, and each
/// returned path lies at or below the child it came from.
pub proof fn lemma_scan_children_unique(
    cs: Seq<FsTree>,
    dir: Seq<char>,
    ex: Seq<Seq<char>>,
    m: MatchSpec,
)
    requires
        all_well_formed(cs),
        distinct_names(cs),
    ensures
        scan_children(cs, dir, ex, m).no_duplicates(),
        forall|k: int|
            0 <= k < scan_children(cs, dir, ex, m).len() ==> exists|i: int|
                0 <= i < cs.len() && extends_dir(
                    #[trigger] scan_children(cs, dir, ex, m)[k],
                    join_path(dir, cs[i].spec_name()),
                ),
    decreases cs,
{
    if cs.len() > 0 {
        let b0 = join_path(dir, cs[0].spec_name());
        let a = scan_entry(cs[0], b0, ex, m);
        let rest = cs.drop_first();
        let b = scan_children(rest, dir, ex, m);
        assert(cs[0].well_formed());
        lemma_scan_entry_unique(cs[0], b0, ex, m);
        assert(all_well_formed(rest));
        assert forall|i: int, j: int|
            #![trigger rest[i].spec_name(), rest[j].spec_name()]
            0 <= i < j < rest.len() implies rest[i].spec_name() != rest[j].spec_name() by {
            assert(rest[i] == cs[i + 1]);
            assert(rest[j] == cs[j + 1]);
        }
        assert(distinct_names(rest));
        lemma_scan_children_unique(rest, dir, ex, m);
        let whole = scan_children(cs, dir, ex, m);
        assert(whole == a + b);
        assert forall|x: int, y: int| 0 <= x < a.len() && 0 <= y < b.len() implies a[x] != b[y] by {
            assert(extends_dir(a[x], b0));
            let i = choose|i: int|
                0 <= i < rest.len() && extends_dir(b[y], join_path(dir, rest[i].spec_name()));
            assert(rest[i] == cs[i + 1]);
            lemma_all_wf_index(rest, i);
            assert(cs[i + 1].well_formed());
            assert(cs[0].spec_name() != cs[i + 1].spec_name());
            lemma_separate_subtrees(dir, cs[0].spec_name(), cs[i + 1].spec_name(), a[x], b[y]);
        }
        assert forall|x: int, y: int|
            0 <= x < whole.len() && 0 <= y < whole.len() && x != y implies whole[x]
            != whole[y] by {
            if x < a.len() && y < a.len() {
                assert(whole[x] == a[x] && whole[y] == a[y]);
            } else if x >= a.len() && y >= a.len() {
                assert(whole[x] == b[x - a.len()] && whole[y] == b[y - a.len()]);
            } else if x < a.len() {
                assert(whole[x] == a[x] && whole[y] == b[y - a.len()]);
            } else {
                assert(whole[y] == a[y] && whole[x] == b[x - a.len()]);
            }
        }
        assert(whole.no_duplicates());
        assert forall|k: int| 0 <= k < whole.len() implies exists|i: int|
            0 <= i < cs.len() && extends_dir(
                #[trigger] whole[k],
                join_path(dir, cs[i].spec_name()),
            ) by {
            if k < a.len() {
                assert(whole[k] == a[k]);
                assert(0 <= 0 < cs.len() && extends_dir(
                    whole[k],
                    join_path(dir, cs[0].spec_name()),
                ));
            } else {
                assert(whole[k] == b[k - a.len()]);
                let i = choose|i: int|
                    0 <= i < rest.len() && extends_dir(
                        b[k - a.len()],
                        join_path(dir, rest[i].spec_name()),
                    );
                assert(rest[i] == cs[i + 1]);
                assert(0 <= i + 1 < cs.len() && extends_dir(
                    whole[k],
                    join_path(dir, cs[i + 1].spec_name()),
                ));
            }
        }
    }
}

} // verus!
