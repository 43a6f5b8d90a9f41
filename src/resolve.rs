//! Resolution of the graph of configuration files.
//!
//! The resolver is driven from outside: the driver asks for the next path to
//! read, reads and parses the file at it, canonicalises the targets of its
//! links and checks that they exist, and hands all of that back. The
//! resolver decides what is read next, and reads no canonical path twice, so
//! cycles and diamonds among the links are harmless.

use vstd::prelude::*;

use crate::config::{Blueprint, BlueprintConfigs};
use crate::error::BlueprintError;

verus! {

/// The target of a link, as the driver found it on disk.
pub struct LinkTarget {
    /// Canonical path of the target.
    pub path: String,
    /// Whether a file exists there.
    pub exists: bool,
}

/// The views of a sequence of strings.
pub open spec fn views(s: Seq<String>) -> Seq<Seq<char>> {
    s.map_values(|x: String| x@)
}

/// The canonical paths of a sequence of link targets.
pub open spec fn target_paths(ls: Seq<LinkTarget>) -> Seq<Seq<char>> {
    ls.map_values(|l: LinkTarget| l.path@)
}

/// The queue after the links `ls` are seen, in order: each target that is
/// neither visited nor queued yet joins the end of the queue.
pub open spec fn enqueue(q: Seq<Seq<char>>, visited: Seq<Seq<char>>, ls: Seq<Seq<char>>) -> Seq<
    Seq<char>,
>
    decreases ls.len(),
{
    if ls.len() == 0 {
        q
    } else {
        let q1 = enqueue(q, visited, ls.drop_last());
        if visited.contains(ls.last()) || q1.contains(ls.last()) {
            q1
        } else {
            q1.push(ls.last())
        }
    }
}

/// The queue without the paths at its front that are parsed already.
pub open spec fn skip_visited(q: Seq<Seq<char>>, visited: Seq<Seq<char>>) -> Seq<Seq<char>>
    decreases q.len(),
{
    if q.len() > 0 && visited.contains(q[0]) {
        skip_visited(q.drop_first(), visited)
    } else {
        q
    }
}

/// `i` is the position of the first link whose target is missing.
pub open spec fn first_missing(ls: Seq<LinkTarget>, i: int) -> bool {
    &&& 0 <= i < ls.len()
    &&& !ls[i].exists
    &&& forall|j: int| 0 <= j < i ==> (#[trigger] ls[j]).exists
}

/// Work queue and visited files of one resolution.
pub struct Resolver {
    root: String,
    paths: Vec<String>,
    files: Vec<Blueprint>,
    queue: Vec<String>,
}

impl Resolver {
    /// Canonical path of the root file.
    pub closed spec fn root_path(&self) -> Seq<char> {
        self.root@
    }

    /// Canonical paths of the files parsed so far, in the order parsed.
    pub closed spec fn visited(&self) -> Seq<Seq<char>> {
        views(self.paths@)
    }

    /// The files parsed so far, in the order of `visited`.
    pub closed spec fn parsed(&self) -> Seq<Blueprint> {
        self.files@
    }

    /// Canonical paths waiting to be parsed, the next one first.
    pub closed spec fn pending(&self) -> Seq<Seq<char>> {
        views(self.queue@)
    }

    /// No path is parsed twice or queued twice, and the root is the first
    /// path parsed.
    pub closed spec fn wf(&self) -> bool {
        &&& self.paths.len() == self.files.len()
        &&& self.visited().no_duplicates()
        &&& self.pending().no_duplicates()
        &&& self.paths.len() == 0 ==> self.pending() == seq![self.root@]
        &&& self.paths.len() > 0 ==> self.visited()[0] == self.root@
    }

    /// Starts a resolution at the root file, which must exist.
    pub fn new(root: String, root_exists: bool) -> (r: Result<Resolver, BlueprintError>)
        ensures
            root_exists <==> r is Ok,
            r matches Ok(res) ==> {
                &&& res.wf()
                &&& res.root_path() == root@
                &&& res.visited().len() == 0
                &&& res.pending() == seq![root@]
            },
            r matches Err(e) ==> e matches BlueprintError::ConfigNotFound { path, referenced_by }
                && path@ == root@ && referenced_by is None,
    {
        if !root_exists {
            return Err(BlueprintError::ConfigNotFound { path: root, referenced_by: None });
        }
        let mut queue: Vec<String> = Vec::new();
        queue.push(root.clone());
        let r = Resolver { root, paths: Vec::new(), files: Vec::new(), queue };
        assert(r.pending() =~= seq![root@]);
        assert(r.visited() =~= Seq::<Seq<char>>::empty());
        Ok(r)
    }

    /// The path to read next, if any is left. Paths at the front of the
    /// queue that were parsed since they were queued are dropped first.
    pub fn next_path(&mut self) -> (r: Option<String>)
        requires
            old(self).wf(),
        ensures
            final(self).wf(),
            final(self).root_path() == old(self).root_path(),
            final(self).visited() == old(self).visited(),
            final(self).parsed() == old(self).parsed(),
            final(self).pending() == skip_visited(old(self).pending(), old(self).visited()),
            r is None <==> final(self).pending().len() == 0,
            r matches Some(p) ==> p@ == final(self).pending()[0] && !final(self).visited().contains(
                p@,
            ),
    {
        let ghost target = skip_visited(self.pending(), self.visited());
        let mut scanning = true;
        while scanning
            invariant
                self.wf(),
                self.root == old(self).root,
                self.paths == old(self).paths,
                self.files == old(self).files,
                skip_visited(self.pending(), self.visited()) == target,
                !scanning ==> self.pending() == target,
                !scanning ==> self.pending().len() == 0 || !self.visited().contains(
                    self.pending()[0],
                ),
            decreases 2 * self.queue.len() + if scanning {
                1int
            } else {
                0int
            },
        {
            if self.queue.len() == 0 {
                scanning = false;
            } else if contains_path(&self.paths, &self.queue[0]) {
                let ghost before = self.pending();
                self.queue.remove(0);
                proof {
                    assert(self.pending() =~= before.drop_first());
                    assert forall|a: int, b: int|
                        0 <= a < b < self.pending().len() implies self.pending()[a]
                        != self.pending()[b] by {
                        assert(self.pending()[a] == before[a + 1]);
                        assert(self.pending()[b] == before[b + 1]);
                    }
                }
            } else {
                scanning = false;
                proof {
                    let q = self.pending();
                    assert(q.len() > 0 && !self.visited().contains(q[0]));
                    assert(skip_visited(q, self.visited()) == q);
                }
            }
        }
        if self.queue.len() == 0 {
            None
        } else {
            Some(self.queue[0].clone())
        }
    }

    /// Takes the parsed file at the path `next_path` gave, with the targets
    /// of its links in order. A missing target fails with the first such
    /// target and the current path, and leaves the resolver as it was.
    /// Otherwise each target that is neither parsed nor queued yet joins the
    /// queue, in link order, and then the path counts as parsed; a file that
    /// links to itself is thus queued again and skipped by `next_path`. The
    /// result says whether to warn that the file carries global settings
    /// that are ignored because it is not the root.
    pub fn add_file(&mut self, file: Blueprint, links: Vec<LinkTarget>) -> (r: Result<
        bool,
        BlueprintError,
    >)
        requires
            old(self).wf(),
            old(self).pending().len() > 0,
            !old(self).visited().contains(old(self).pending()[0]),
        ensures
            r is Err <==> exists|i: int| 0 <= i < links.len() && !(#[trigger] links@[i]).exists,
            r matches Err(e) ==> {
                &&& *final(self) == *old(self)
                &&& e matches BlueprintError::ConfigNotFound { path, referenced_by }
                &&& exists|i: int|
                    first_missing(links@, i) && path@ == (#[trigger] links@[i]).path@
                &&& referenced_by matches Some(from) && from@ == old(self).pending()[0]
            },
            r matches Ok(warn) ==> {
                &&& warn == (old(self).pending()[0] != old(self).root_path() && file.config is Some)
                &&& final(self).wf()
                &&& final(self).root_path() == old(self).root_path()
                &&& final(self).visited() == old(self).visited().push(old(self).pending()[0])
                &&& final(self).parsed() == old(self).parsed().push(file)
                &&& final(self).pending() == enqueue(
                    old(self).pending().drop_first(),
                    old(self).visited(),
                    target_paths(links@),
                )
            },
    {
        assert(self.queue.len() == self.pending().len());
        let mut i: usize = 0;
        while i < links.len()
            invariant
                i <= links.len(),
                forall|j: int| 0 <= j < i ==> (#[trigger] links@[j]).exists,
                *self == *old(self),
                self.queue.len() > 0,
            decreases links.len() - i,
        {
            if !links[i].exists {
                let current = self.queue[0].clone();
                let missing = links[i].path.clone();
                assert(first_missing(links@, i as int));
                return Err(
                    BlueprintError::ConfigNotFound { path: missing, referenced_by: Some(current) },
                );
            }
            i = i + 1;
        }
        let ghost old_visited = self.visited();
        let ghost old_pending = self.pending();
        let current = self.queue.remove(0);
        let warn = !(current == self.root) && file.config.is_some();
        let ghost base = self.pending();
        proof {
            assert(base =~= old_pending.drop_first());
            assert forall|a: int, b: int| 0 <= a < b < base.len() implies base[a] != base[b] by {
                assert(base[a] == old_pending[a + 1]);
                assert(base[b] == old_pending[b + 1]);
            }
        }
        let mut i: usize = 0;
        while i < links.len()
            invariant
                i <= links.len(),
                self.paths == old(self).paths,
                self.files == old(self).files,
                self.root == old(self).root,
                self.visited() == old_visited,
                self.pending().no_duplicates(),
                self.pending() == enqueue(base, old_visited, target_paths(links@).take(i as int)),
            decreases links.len() - i,
        {
            let target = &links[i].path;
            let seen = contains_path(&self.paths, target);
            let queued = contains_path(&self.queue, target);
            let ghost before = self.pending();
            proof {
                let ls = target_paths(links@).take(i + 1);
                assert(ls.drop_last() =~= target_paths(links@).take(i as int));
                assert(ls.last() == target@);
            }
            if !seen && !queued {
                self.queue.push(target.clone());
                proof {
                    assert(self.pending() =~= before.push(target@));
                    assert forall|a: int, b: int| 0 <= a < b < self.pending().len() implies self.pending()[a] != self.pending()[b] by {
                        if b == before.len() {
                            assert(before.contains(before[a]));
                        }
                    }
                }
            }
            i = i + 1;
        }
        self.paths.push(current);
        self.files.push(file);
        proof {
            assert(target_paths(links@).take(links.len() as int) =~= target_paths(links@));
            assert(self.visited() =~= old_visited.push(old_pending[0]));
            assert forall|a: int, b: int| 0 <= a < b < self.visited().len() implies self.visited()[a]
                != self.visited()[b] by {
                if b == old_visited.len() {
                    assert(old_visited.contains(old_visited[a]));
                }
            }
            if old_visited.len() == 0 {
                assert(old_pending[0] == self.root@);
            }
        }
        Ok(warn)
    }

    /// How many files have been parsed.
    pub fn parsed_count(&self) -> (r: usize)
        ensures
            r == self.visited().len(),
    {
        self.paths.len()
    }

    /// The root file, and the other files in the order they were parsed.
    pub fn finish(self) -> (r: (Blueprint, BlueprintConfigs))
        requires
            self.wf(),
            self.visited().len() > 0,
        ensures
            r.0 == self.parsed()[0],
            r.1.0@ == self.parsed().drop_first(),
    {
        let mut files = self.files;
        let root = files.remove(0);
        (root, BlueprintConfigs(files))
    }
}

/// Whether `v` holds a string with the view of `p`.
fn contains_path(v: &Vec<String>, p: &String) -> (r: bool)
    ensures
        r == views(v@).contains(p@),
{
    let mut i: usize = 0;
    while i < v.len()
        invariant
            i <= v.len(),
            forall|j: int| 0 <= j < i ==> (#[trigger] v@[j])@ != p@,
        decreases v.len() - i,
    {
        if v[i] == *p {
            assert(views(v@)[i as int] == p@);
            return true;
        }
        i = i + 1;
    }
    proof {
        if views(v@).contains(p@) {
            let k = choose|k: int| 0 <= k < views(v@).len() && views(v@)[k] == p@;
            assert(v@[k]@ == p@);
        }
    }
    false
}

/// Every canonical path is parsed at most once.
pub proof fn lemma_parsed_once(r: &Resolver)
    requires
        r.wf(),
    ensures
        r.visited().no_duplicates(),
        r.visited().len() == r.parsed().len(),
{
}

/// Where every link target lies in a finite set of paths, at most that many
/// files are ever parsed: each step parses a path not parsed before, so
/// resolution ends, whatever cycles the links form.
pub proof fn lemma_parsed_bounded(r: &Resolver, universe: Set<Seq<char>>)
    requires
        r.wf(),
        universe.finite(),
        forall|i: int| 0 <= i < r.visited().len() ==> universe.contains(#[trigger] r.visited()[i]),
    ensures
        r.visited().len() <= universe.len(),
{
    let v = r.visited();
    v.unique_seq_to_set();
    assert(v.to_set().subset_of(universe));
    vstd::set_lib::lemma_len_subset(v.to_set(), universe);
}

} // verus!
