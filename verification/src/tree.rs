//! An in-memory snapshot of a directory tree: one node per filesystem entry,
//! tagged as a file, a directory with its children, some other node kind, or
//! an entry that could not be read.

use vstd::prelude::*;
use vstd::string::StringExecFns;

verus! {

/// One filesystem node. `name` is always the entry's base name (the final
/// path component). An `Unreadable` node stands for an entry whose kind or
/// contents could not be determined (permissions, a race, a broken link).
pub enum FsTree {
    File { name: String },
    Dir { name: String, children: Vec<FsTree> },
    Other { name: String },
    Unreadable { name: String },
}

impl FsTree {
    /// The base name of this node.
    pub open spec fn spec_name(self) -> Seq<char> {
        match self {
            FsTree::File { name } => name@,
            FsTree::Dir { name, children } => name@,
            FsTree::Other { name } => name@,
            FsTree::Unreadable { name } => name@,
        }
    }

    /// The base name of this node.
    pub fn name(&self) -> (r: &String)
        ensures
            r@ == self.spec_name(),
    {
        match self {
            FsTree::File { name } => name,
            FsTree::Dir { name, children } => name,
            FsTree::Other { name } => name,
            FsTree::Unreadable { name } => name,
        }
    }

    /// Whether this node is a directory.
    pub fn is_dir(&self) -> (b: bool)
        ensures
            b == (self is Dir),
    {
        match self {
            FsTree::Dir { name, children } => true,
            _ => false,
        }
    }

    /// A well-formed snapshot: every base name is non-empty and free of the
    /// path separator, and the children of each directory carry pairwise
    /// distinct names, as entries of one real directory do.
    pub open spec fn well_formed(self) -> bool
        decreases self,
    {
        &&& self.spec_name().len() > 0
        &&& !self.spec_name().contains('/')
        &&& match self {
            FsTree::Dir { name, children } => all_well_formed(children@) && distinct_names(
                children@,
            ),
            _ => true,
        }
    }
}

/// Every node of the list is a well-formed snapshot.
pub open spec fn all_well_formed(cs: Seq<FsTree>) -> bool
    decreases cs,
{
    cs.len() == 0 || (cs[0].well_formed() && all_well_formed(cs.drop_first()))
}

/// The nodes of the list carry pairwise distinct base names.
pub open spec fn distinct_names(cs: Seq<FsTree>) -> bool {
    forall|i: int, j: int|
        #![trigger cs[i].spec_name(), cs[j].spec_name()]
        0 <= i < j < cs.len() ==> cs[i].spec_name() != cs[j].spec_name()
}

/// Each member of an all-well-formed list is well-formed.
pub proof fn lemma_all_wf_index(cs: Seq<FsTree>, i: int)
    requires
        all_well_formed(cs),
        0 <= i < cs.len(),
    ensures
        cs[i].well_formed(),
    decreases cs,
{
    if i > 0 {
        lemma_all_wf_index(cs.drop_first(), i - 1);
        assert(cs.drop_first()[i - 1] == cs[i]);
    }
}

/// The path of an entry named `name` inside the directory at `dir`.
pub open spec fn join_path(dir: Seq<char>, name: Seq<char>) -> Seq<char> {
    dir.push('/') + name
}

/// Builds the path of an entry named `name` inside the directory at `dir`.
pub fn join(dir: &str, name: &String) -> (r: String)
    ensures
        r@ == join_path(dir@, name@),
{
    let mut r = dir.to_owned();
    r.append("/");
    r.append(name.as_str());
    proof {
        reveal_strlit("/");
        assert(r@ =~= join_path(dir@, name@));
    }
    r
}

} // verus!
