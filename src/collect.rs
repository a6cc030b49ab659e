//! The module graph: the entries of a directory walk, pruned to those that lead to
//! test files, each with its module path, ordered by that path.
//!
//! An entry's position in the tree is given by its path components relative to the
//! walked root; the entry at index 0 is the root itself. A container is the parent
//! of every entry whose components extend its own by one, so a module path is the
//! chain of names from the root's child down to the entry. The containment graph
//! is built with petgraph and checked for cycles; that check cannot fail, since each
//! edge goes exactly one level deeper.
use crate::text::{copy_strings, lemma_path_total, path_le, path_less, path_lt, views};
use vstd::prelude::*;
use vstd::string::*;

verus! {

/// The file extension of a test file.
pub const FILE_EXTENSION: &'static str = "b";

/// Errors collecting a module graph.
#[derive(Debug)]
pub enum Error {
    /// Walking the tree failed; the message describes the cause.
    Walk(String),
    /// The root directory could not be read.
    ReadRootDir { path: String, message: String },
    /// A directory entry could not be read.
    ReadEntry(String),
    /// No test file was found under the root.
    Empty,
    /// An internal invariant did not hold.
    Other(String),
}

/// One entry of a directory walk.
#[derive(Debug, Clone)]
pub struct Entry {
    /// The entry's path components relative to the walked root (none for the root).
    pub components: Vec<String>,
    /// Whether the entry is a regular file.
    pub is_file: bool,
    /// The entry's full path.
    pub path: String,
}

/// The stem of a path component: its name without the extension.
pub uninterp spec fn stem_of(name: Seq<char>) -> Option<Seq<char>>;

/// The extension of a path component.
pub uninterp spec fn extension_of(name: Seq<char>) -> Option<Seq<char>>;

/// Relies on std::path::Path::file_stem: the component's name without its extension.
#[verifier::external_body]
fn file_stem(name: &str) -> (r: Option<String>)
    ensures
        match r {
            Some(s) => stem_of(name@) == Some(s@),
            None => stem_of(name@) is None,
        },
{
    std::path::Path::new(name).file_stem().map(|s| s.to_string_lossy().into_owned())
}

/// Relies on std::path::Path::extension: the component's extension, if it has one.
#[verifier::external_body]
fn file_extension(name: &str) -> (r: Option<String>)
    ensures
        match r {
            Some(s) => extension_of(name@) == Some(s@),
            None => extension_of(name@) is None,
        },
{
    std::path::Path::new(name).extension().map(|s| s.to_string_lossy().into_owned())
}

pub open spec fn comps(e: Entry) -> Seq<Seq<char>> {
    views(e.components@)
}

/// The module name of a path component: its stem, or the whole component where it
/// has none.
pub open spec fn display_name(c: Seq<char>) -> Seq<char> {
    match stem_of(c) {
        Some(s) => s,
        None => c,
    }
}

/// Whether the entry is a test file: a regular file with the test-file extension.
pub open spec fn is_test_file(e: Entry) -> bool {
    e.is_file && comps(e).len() > 0 && extension_of(comps(e).last()) == Some(FILE_EXTENSION@)
}

/// The module path of an entry.
pub open spec fn entry_path(e: Entry) -> Seq<Seq<char>> {
    comps(e).map_values(|c: Seq<char>| display_name(c))
}

/// What a module holds: its path and, for a leaf, its file.
pub type ModuleView = (Seq<Seq<char>>, Option<Seq<char>>);

/// The module an entry becomes.
pub open spec fn entry_module(e: Entry) -> ModuleView {
    (entry_path(e), if is_test_file(e) {
        Some(e.path@)
    } else {
        None
    })
}

pub open spec fn is_prefix(a: Seq<Seq<char>>, b: Seq<Seq<char>>) -> bool {
    a.len() <= b.len() && b.subrange(0, a.len() as int) == a
}

/// Whether entry `i` survives pruning: it is not the root, and it is a test file or a
/// container with a test file somewhere below it.
pub open spec fn kept(es: Seq<Entry>, i: int) -> bool {
    1 <= i < es.len() && exists|j: int|
        1 <= j < es.len() && is_test_file(#[trigger] es[j]) && is_prefix(comps(es[i]), comps(es[j]))
}

/// Whether some entry other than the root is a test file.
pub open spec fn has_tests(es: Seq<Entry>) -> bool {
    exists|j: int| 1 <= j < es.len() && is_test_file(#[trigger] es[j])
}

/// Whether the modules are ordered by path.
pub open spec fn sorted(v: Seq<ModuleView>) -> bool {
    forall|k: int| 0 <= k < v.len() - 1 ==> path_le(#[trigger] v[k].0, v[k + 1].0)
}

/// Whether `v` lists the kept entries of `es`, each once, ordered by module path, with
/// `src[k]` the entry that module `k` comes from.
pub open spec fn compiled_from(v: Seq<ModuleView>, src: Seq<int>, es: Seq<Entry>) -> bool {
    &&& src.len() == v.len()
    &&& src.no_duplicates()
    &&& forall|i: int| #[trigger] src.contains(i) <==> kept(es, i)
    &&& forall|k: int| 0 <= k < v.len() ==> v[k] == entry_module(#[trigger] es[src[k]])
    &&& sorted(v)
}

/// The modules of `v` that have a file, in order.
pub open spec fn leaf_only(v: Seq<ModuleView>) -> Seq<ModuleView>
    decreases v.len(),
{
    if v.len() == 0 {
        Seq::empty()
    } else if v.last().1 is Some {
        leaf_only(v.drop_last()).push(v.last())
    } else {
        leaf_only(v.drop_last())
    }
}

/// A test module: a container of modules, or a leaf that holds a file's tests.
#[derive(Debug)]
pub struct Module {
    mod_path: Vec<String>,
    file: Option<String>,
}

impl View for Module {
    type V = ModuleView;

    closed spec fn view(&self) -> ModuleView {
        (views(self.mod_path@), match self.file {
            Some(f) => Some(f@),
            None => None,
        })
    }
}

impl Module {
    /// Returns the name of this module: the last component of its path.
    pub fn name(&self) -> (r: String)
        requires
            self@.0.len() > 0,
        ensures
            r@ == self@.0.last(),
    {
        self.mod_path[self.mod_path.len() - 1].clone()
    }

    /// Returns the path to the file this module came from, for a leaf.
    pub fn file_path(&self) -> (r: Option<String>)
        ensures
            match r {
                Some(f) => self@.1 == Some(f@),
                None => self@.1 is None,
            },
    {
        match &self.file {
            Some(f) => Some(f.clone()),
            None => None,
        }
    }

    /// Returns the components of the module path.
    pub fn module_path_components(&self) -> (r: Vec<String>)
        ensures
            views(r@) == self@.0,
    {
        copy_strings(&self.mod_path)
    }

    /// Returns the module path as a string, its components joined by `::`.
    pub fn module_path_string(&self) -> (r: String)
        ensures
            r@ == crate::text::joined(self@.0, "::"@),
    {
        crate::text::join_with(&self.mod_path, "::")
    }

    fn copy(&self) -> (r: Module)
        ensures
            r@ == self@,
    {
        Module { mod_path: copy_strings(&self.mod_path), file: self.file_path() }
    }
}

/// The compiled module graph: every module below the root, ordered by module path.
pub struct ModuleGraph {
    modules: Vec<Module>,
    sources: Ghost<Seq<int>>,
}

impl View for ModuleGraph {
    type V = Seq<ModuleView>;

    closed spec fn view(&self) -> Seq<ModuleView> {
        self.modules@.map_values(|m: Module| m@)
    }
}

impl ModuleGraph {
    /// The entry that each module comes from.
    pub closed spec fn sources(&self) -> Seq<int> {
        self.sources@
    }

    /// Every module below the root, containers included, ordered by module path.
    pub fn iter_modules(&self) -> (r: Vec<Module>)
        ensures
            r@.map_values(|m: Module| m@) == self@,
    {
        let mut r: Vec<Module> = Vec::new();
        let mut k: usize = 0;
        while k < self.modules.len()
            invariant
                0 <= k <= self.modules.len(),
                r@.map_values(|m: Module| m@) =~= self.modules@.subrange(0, k as int).map_values(
                    |m: Module| m@,
                ),
            decreases self.modules.len() - k,
        {
            let ghost old_r = r@;
            r.push(self.modules[k].copy());
            assert(r@.map_values(|m: Module| m@) =~= old_r.map_values(|m: Module| m@).push(
                self.modules@[k as int]@,
            ));
            assert(self.modules@.subrange(0, k + 1).map_values(|m: Module| m@) =~= self.modules@.subrange(
                0,
                k as int,
            ).map_values(|m: Module| m@).push(self.modules@[k as int]@));
            k = k + 1;
        }
        assert(self.modules@.subrange(0, k as int) =~= self.modules@);
        r
    }

    /// The modules that hold tests (those with a file), ordered by module path.
    pub fn iter_leaf_modules(&self) -> (r: Vec<Module>)
        ensures
            r@.map_values(|m: Module| m@) == leaf_only(self@),
    {
        let mut r: Vec<Module> = Vec::new();
        let mut k: usize = 0;
        while k < self.modules.len()
            invariant
                0 <= k <= self.modules.len(),
                r@.map_values(|m: Module| m@) =~= leaf_only(
                    self.modules@.subrange(0, k as int).map_values(|m: Module| m@),
                ),
            decreases self.modules.len() - k,
        {
            let ghost before = self.modules@.subrange(0, k as int).map_values(|m: Module| m@);
            let ghost after = self.modules@.subrange(0, k + 1).map_values(|m: Module| m@);
            assert(after.drop_last() =~= before);
            assert(after.last() == self.modules@[k as int]@);
            let ghost old_r = r@;
            if self.modules[k].file.is_some() {
                r.push(self.modules[k].copy());
                assert(r@.map_values(|m: Module| m@) =~= old_r.map_values(|m: Module| m@).push(
                    self.modules@[k as int]@,
                ));
            }
            k = k + 1;
            assert(r@.map_values(|m: Module| m@) =~= leaf_only(after));
        }
        assert(self.modules@.subrange(0, k as int) =~= self.modules@);
        r
    }
}

proof fn lemma_leaf_only_has_files(v: Seq<ModuleView>)
    ensures
        forall|k: int| 0 <= k < leaf_only(v).len() ==> (#[trigger] leaf_only(v)[k]).1 is Some,
    decreases v.len(),
{
    if v.len() > 0 {
        lemma_leaf_only_has_files(v.drop_last());
    }
}

proof fn lemma_kept_itself(es: Seq<Entry>, j: int)
    requires
        1 <= j < es.len(),
        is_test_file(es[j]),
    ensures
        kept(es, j),
{
    assert(comps(es[j]).subrange(0, comps(es[j]).len() as int) =~= comps(es[j]));
}

/// Where every entry below the root is a test file directly under the root, each of
/// them becomes a module, every module comes from one of them, its path is the one
/// name that is the file's stem, and the modules are ordered by path.
pub proof fn lemma_root_files_listed(es: Seq<Entry>, v: Seq<ModuleView>, src: Seq<int>)
    requires
        compiled_from(v, src, es),
        forall|j: int|
            1 <= j < es.len() ==> comps(#[trigger] es[j]).len() == 1 && is_test_file(es[j]),
    ensures
        forall|j: int| 1 <= j < es.len() ==> #[trigger] src.contains(j),
        forall|k: int|
            0 <= k < v.len() ==> 1 <= #[trigger] src[k] < es.len() && v[k] == (
                seq![display_name(comps(es[src[k]])[0])],
                Some(es[src[k]].path@),
            ),
        sorted(v),
{
    assert forall|j: int| 1 <= j < es.len() implies #[trigger] src.contains(j) by {
        lemma_kept_itself(es, j);
    }
    assert forall|k: int| 0 <= k < v.len() implies 1 <= #[trigger] src[k] < es.len() && v[k] == (
        seq![display_name(comps(es[src[k]])[0])],
        Some(es[src[k]].path@),
    ) by {
        assert(src.contains(src[k]));
        let e = es[src[k]];
        assert(entry_path(e) =~= seq![display_name(comps(e)[0])]);
    }
}

/// A directory directly under the root with a test file directly inside it becomes a
/// container module without a file, which the leaf view leaves out, and the file's
/// module path is the directory's name followed by the file's stem.
pub proof fn lemma_nested_file(es: Seq<Entry>, v: Seq<ModuleView>, src: Seq<int>, d: int, f: int)
    requires
        compiled_from(v, src, es),
        1 <= d < es.len(),
        1 <= f < es.len(),
        !es[d].is_file,
        comps(es[d]).len() == 1,
        is_test_file(es[f]),
        comps(es[f]).len() == 2,
        comps(es[f])[0] == comps(es[d])[0],
    ensures
        src.contains(d),
        src.contains(f),
        entry_module(es[d]) == (seq![display_name(comps(es[d])[0])], None::<Seq<char>>),
        entry_module(es[f]) == (
            seq![display_name(comps(es[d])[0]), display_name(comps(es[f])[1])],
            Some(es[f].path@),
        ),
        !leaf_only(v).contains(entry_module(es[d])),
{
    assert(comps(es[f]).subrange(0, 1) =~= comps(es[d]));
    assert(kept(es, d));
    lemma_kept_itself(es, f);
    assert(entry_path(es[d]) =~= seq![display_name(comps(es[d])[0])]);
    assert(entry_path(es[f]) =~= seq![display_name(comps(es[d])[0]), display_name(comps(es[f])[1])]);
    lemma_leaf_only_has_files(v);
}

/// An entry that is not a test file and has no test file below it, such as an empty
/// directory, is pruned: no module of the graph comes from it.
pub proof fn lemma_empty_dir_pruned(es: Seq<Entry>, v: Seq<ModuleView>, src: Seq<int>, d: int)
    requires
        compiled_from(v, src, es),
        0 <= d < es.len(),
        forall|j: int|
            1 <= j < es.len() && is_test_file(#[trigger] es[j]) ==> !is_prefix(
                comps(es[d]),
                comps(es[j]),
            ),
    ensures
        !src.contains(d),
{
}

#[verifier::external_type_specification]
#[verifier::external_body]
#[verifier::reject_recursive_types(N)]
#[verifier::reject_recursive_types(E)]
#[verifier::reject_recursive_types(Ty)]
#[verifier::reject_recursive_types(Ix)]
pub struct ExGraph<N, E, Ty, Ix>(petgraph::Graph<N, E, Ty, Ix>);

#[verifier::external_type_specification]
#[verifier::external_body]
pub struct ExDirected(petgraph::Directed);

/// The containment graph of a walk: a node per entry, an edge from each container to
/// each entry directly inside it.
pub type TreeGraph = petgraph::Graph<(), (), petgraph::Directed, usize>;

/// The number of nodes of a graph.
pub uninterp spec fn graph_node_count(g: TreeGraph) -> nat;

/// The edges of a graph, as (source, target) node indices in the order they were added.
pub uninterp spec fn graph_edges(g: TreeGraph) -> Seq<(int, int)>;

/// Relies on petgraph's Graph::new: a graph without nodes or edges.
#[verifier::external_body]
fn new_graph() -> (g: TreeGraph)
    ensures
        graph_node_count(g) == 0,
        graph_edges(g) == Seq::<(int, int)>::empty(),
{
    petgraph::Graph::default()
}

/// Relies on petgraph's Graph::add_node: the new node's index is the former node
/// count, and the edges stay as they were (with usize indices it does not panic).
#[verifier::external_body]
fn add_graph_node(g: &mut TreeGraph) -> (r: usize)
    ensures
        r == graph_node_count(*old(g)),
        graph_node_count(*final(g)) == graph_node_count(*old(g)) + 1,
        graph_edges(*final(g)) == graph_edges(*old(g)),
{
    g.add_node(()).index()
}

/// Relies on petgraph's Graph::add_edge: the edge from `a` to `b` is added after the
/// others (it panics where a node does not exist, which `requires` rules out).
#[verifier::external_body]
fn add_graph_edge(g: &mut TreeGraph, a: usize, b: usize)
    requires
        a < graph_node_count(*old(g)),
        b < graph_node_count(*old(g)),
    ensures
        graph_node_count(*final(g)) == graph_node_count(*old(g)),
        graph_edges(*final(g)) == graph_edges(*old(g)).push((a as int, b as int)),
{
    g.add_edge(petgraph::graph::NodeIndex::new(a), petgraph::graph::NodeIndex::new(b), ());
}

/// Whether following edges from some node can lead back to it.
pub open spec fn has_cycle(edges: Seq<(int, int)>) -> bool {
    exists|p: Seq<int>|
        p.len() >= 2 && p[0] == p.last() && forall|k: int|
            0 <= k < p.len() - 1 ==> #[trigger] edges.contains((p[k], p[k + 1]))
}

/// Relies on petgraph::algo::is_cyclic_directed: whether the directed graph has a cycle.
#[verifier::external_body]
fn graph_is_cyclic(g: &TreeGraph) -> (r: bool)
    ensures
        r == has_cycle(graph_edges(*g)),
{
    petgraph::algo::is_cyclic_directed(g)
}

proof fn lemma_walk_rank(edges: Seq<(int, int)>, rank: spec_fn(int) -> int, p: Seq<int>, m: int)
    requires
        forall|k: int| 0 <= k < edges.len() ==> rank(#[trigger] edges[k].1) == rank(edges[k].0) + 1,
        forall|k: int| 0 <= k < p.len() - 1 ==> #[trigger] edges.contains((p[k], p[k + 1])),
        0 <= m < p.len(),
    ensures
        rank(p[m]) == rank(p[0]) + m,
    decreases m,
{
    if m > 0 {
        lemma_walk_rank(edges, rank, p, m - 1);
        assert(edges.contains((p[m - 1], p[(m - 1) + 1])));
        let k = choose|k: int| 0 <= k < edges.len() && edges[k] == (p[m - 1], p[m]);
        assert(rank(edges[k].1) == rank(edges[k].0) + 1);
    }
}

/// A graph whose every edge goes one level deeper has no cycle.
proof fn lemma_ranked_acyclic(edges: Seq<(int, int)>, rank: spec_fn(int) -> int)
    requires
        forall|k: int| 0 <= k < edges.len() ==> rank(#[trigger] edges[k].1) == rank(edges[k].0) + 1,
    ensures
        !has_cycle(edges),
{
    if has_cycle(edges) {
        let p = choose|p: Seq<int>|
            p.len() >= 2 && p[0] == p.last() && forall|k: int|
                0 <= k < p.len() - 1 ==> #[trigger] edges.contains((p[k], p[k + 1]));
        lemma_walk_rank(edges, rank, p, p.len() - 1);
    }
}

/// The depth of entry `x` below the root.
pub open spec fn depth(es: Seq<Entry>, x: int) -> int {
    comps(es[x]).len() as int
}

/// Builds the containment graph: node `i` is entry `i`, and each entry gets an edge
/// from the first entry whose components are its own without the last.
fn build_tree(entries: &Vec<Entry>) -> (g: TreeGraph)
    ensures
        graph_node_count(g) == entries@.len(),
        forall|k: int|
            0 <= k < graph_edges(g).len() ==> {
                let e = #[trigger] graph_edges(g)[k];
                &&& 0 <= e.0 < entries@.len()
                &&& 0 <= e.1 < entries@.len()
                &&& depth(entries@, e.1) == depth(entries@, e.0) + 1
            },
{
    let n = entries.len();
    let mut g = new_graph();
    let mut i: usize = 0;
    while i < n
        invariant
            n == entries@.len(),
            0 <= i <= n,
            graph_node_count(g) == i,
            graph_edges(g) == Seq::<(int, int)>::empty(),
        decreases n - i,
    {
        add_graph_node(&mut g);
        i = i + 1;
    }
    let mut i: usize = 1;
    while i < n
        invariant
            n == entries@.len(),
            graph_node_count(g) == n,
            1 <= i,
            forall|k: int|
                0 <= k < graph_edges(g).len() ==> {
                    let e = #[trigger] graph_edges(g)[k];
                    &&& 0 <= e.0 < n
                    &&& 0 <= e.1 < n
                    &&& depth(entries@, e.1) == depth(entries@, e.0) + 1
                },
        decreases n - i,
    {
        let mut j: usize = 0;
        while j < n
            invariant
                n == entries@.len(),
                graph_node_count(g) == n,
                1 <= i < n,
                0 <= j <= n,
                forall|k: int|
                    0 <= k < graph_edges(g).len() ==> {
                        let e = #[trigger] graph_edges(g)[k];
                        &&& 0 <= e.0 < n
                        &&& 0 <= e.1 < n
                        &&& depth(entries@, e.1) == depth(entries@, e.0) + 1
                    },
            decreases n - j,
        {
            if entries[i].components.len() > 0 && entries[j].components.len() == entries[i].components.len()
                - 1 && prefix_of(
                &entries[j].components,
                &entries[i].components,
            ) {
                let ghost old_edges = graph_edges(g);
                add_graph_edge(&mut g, j, i);
                assert(forall|k: int| 0 <= k < old_edges.len() ==> graph_edges(g)[k] == old_edges[k]);
                break;
            }
            j = j + 1;
        }
        i = i + 1;
    }
    g
}

/// Whether components `a` are a prefix of components `b`.
fn prefix_of(a: &Vec<String>, b: &Vec<String>) -> (r: bool)
    ensures
        r == is_prefix(views(a@), views(b@)),
{
    if a.len() > b.len() {
        return false;
    }
    let mut k: usize = 0;
    while k < a.len()
        invariant
            a.len() <= b.len(),
            0 <= k <= a.len(),
            forall|j: int| 0 <= j < k ==> a@[j]@ == b@[j]@,
        decreases a.len() - k,
    {
        if a[k] != b[k] {
            assert(views(b@).subrange(0, a.len() as int)[k as int] != views(a@)[k as int]);
            return false;
        }
        k = k + 1;
    }
    assert(views(b@).subrange(0, a.len() as int) =~= views(a@));
    true
}

/// Whether the entry is a test file.
fn entry_is_test_file(e: &Entry) -> (r: bool)
    ensures
        r == is_test_file(*e),
{
    if !e.is_file || e.components.len() == 0 {
        return false;
    }
    let last = &e.components[e.components.len() - 1];
    assert(comps(*e).last() == last@);
    match file_extension(last.as_str()) {
        Some(ext) => ext == String::from_str(FILE_EXTENSION),
        None => false,
    }
}

/// The module path of an entry: the module name of each component.
fn entry_module_path(e: &Entry) -> (r: Vec<String>)
    ensures
        views(r@) == entry_path(*e),
{
    let mut r: Vec<String> = Vec::new();
    let mut k: usize = 0;
    while k < e.components.len()
        invariant
            0 <= k <= e.components.len(),
            views(r@) =~= entry_path(*e).subrange(0, k as int),
        decreases e.components.len() - k,
    {
        let c = &e.components[k];
        let name = match file_stem(c.as_str()) {
            Some(s) => s,
            None => c.clone(),
        };
        let ghost old_r = r@;
        r.push(name);
        assert(views(r@) =~= views(old_r).push(display_name(c@)));
        k = k + 1;
    }
    r
}

/// Orders entry indices by module path, inserting `i` into the ordered `order`.
fn insert_ordered(order: &mut Vec<usize>, paths: &Vec<Vec<String>>, i: usize)
    requires
        i < paths.len(),
        forall|k: int| 0 <= k < old(order)@.len() ==> old(order)@[k] < paths.len(),
        forall|k: int|
            0 <= k < old(order)@.len() - 1 ==> path_le(
                views(#[trigger] paths@[old(order)@[k] as int]@),
                views(paths@[old(order)@[k + 1] as int]@),
            ),
    ensures
        final(order)@.len() == old(order)@.len() + 1,
        exists|p: int| 0 <= p <= old(order)@.len() && final(order)@ == old(order)@.insert(p, i),
        forall|k: int| 0 <= k < final(order)@.len() ==> final(order)@[k] < paths.len(),
        forall|k: int|
            0 <= k < final(order)@.len() - 1 ==> path_le(
                views(#[trigger] paths@[final(order)@[k] as int]@),
                views(paths@[final(order)@[k + 1] as int]@),
            ),
{
    let mut p: usize = order.len();
    while p > 0 && path_less(&paths[i], &paths[order[p - 1]])
        invariant
            0 <= p <= order@.len(),
            forall|k: int| 0 <= k < order@.len() ==> order@[k] < paths.len(),
            i < paths.len(),
            p < order@.len() ==> path_lt(views(paths@[i as int]@), views(paths@[order@[p as int] as int]@)),
        decreases p,
    {
        p = p - 1;
    }
    proof {
        if p > 0 {
            lemma_path_total(views(paths@[i as int]@), views(paths@[order@[p - 1] as int]@));
        }
    }
    let ghost before = order@;
    order.insert(p, i);
    proof {
        before.insert_ensures(p as int, i);
        assert forall|k: int| 0 <= k < order@.len() - 1 implies path_le(
            views(#[trigger] paths@[order@[k] as int]@),
            views(paths@[order@[k + 1] as int]@),
        ) by {
            if k < p as int - 1 {
                assert(order@[k] == before[k] && order@[k + 1] == before[k + 1]);
            } else if k == p as int - 1 {
                assert(order@[k] == before[k] && order@[k + 1] == i);
            } else if k == p as int {
                assert(order@[k] == i && order@[k + 1] == before[k]);
            } else {
                assert(order@[k] == before[k - 1] && order@[k + 1] == before[k]);
                assert(path_le(
                    views(paths@[before[k - 1] as int]@),
                    views(paths@[before[(k - 1) + 1] as int]@),
                ));
            }
        }
        assert forall|k: int| 0 <= k < order@.len() implies order@[k] < paths.len() by {
            if k < p {
                assert(order@[k] == before[k]);
            } else if k > p {
                assert(order@[k] == before[k - 1]);
            }
        }
    }
}

/// Compiles the entries of a walk (the root first) into the module graph: entries
/// that neither are test files nor lead to one are pruned, and the rest are
/// ordered by module path. Fails with `Empty` where no entry below the root is a
/// test file.
pub fn compile_module_graph(entries: &Vec<Entry>) -> (r: Result<ModuleGraph, Error>)
    ensures
        !has_tests(entries@) <==> r matches Err(Error::Empty),
        has_tests(entries@) ==> (r matches Ok(g) && compiled_from(g@, g.sources(), entries@)),
{
    let n = entries.len();
    let tree = build_tree(entries);
    proof {
        let es = entries@;
        lemma_ranked_acyclic(graph_edges(tree), |x: int| depth(es, x));
    }
    if graph_is_cyclic(&tree) {
        return Err(Error::Other(String::from_str("internal error: cycle detected constructing module graph")));
    }
    let mut leaf: Vec<bool> = Vec::new();
    let mut paths: Vec<Vec<String>> = Vec::new();
    let mut i: usize = 0;
    while i < n
        invariant
            n == entries@.len(),
            0 <= i <= n,
            leaf@.len() == i,
            paths@.len() == i,
            forall|j: int| 0 <= j < i ==> #[trigger] leaf@[j] == (j >= 1 && is_test_file(entries@[j])),
            forall|j: int| 0 <= j < i ==> views(#[trigger] paths@[j]@) == entry_path(entries@[j]),
        decreases n - i,
    {
        let t = entry_is_test_file(&entries[i]);
        leaf.push(i >= 1 && t);
        paths.push(entry_module_path(&entries[i]));
        i = i + 1;
    }
    let mut order: Vec<usize> = Vec::new();
    let mut any_leaf = false;
    let mut i: usize = 1;
    while i < n
        invariant
            n == entries@.len(),
            1 <= i,
            n >= 1 ==> i <= n,
            n == 0 ==> i == 1,
            leaf@.len() == n,
            paths@.len() == n,
            forall|j: int| 0 <= j < n ==> #[trigger] leaf@[j] == (j >= 1 && is_test_file(entries@[j])),
            forall|j: int| 0 <= j < n ==> views(#[trigger] paths@[j]@) == entry_path(entries@[j]),
            any_leaf == exists|j: int| 1 <= j < i && is_test_file(#[trigger] entries@[j]),
            order@.no_duplicates(),
            forall|x: usize| #[trigger] order@.contains(x) ==> 1 <= x < i && kept(entries@, x as int),
            forall|x: usize| 1 <= x < i && kept(entries@, x as int) ==> #[trigger] order@.contains(x),
            forall|k: int| 0 <= k < order@.len() ==> order@[k] < paths.len(),
            forall|k: int|
                0 <= k < order@.len() - 1 ==> path_le(
                    views(#[trigger] paths@[order@[k] as int]@),
                    views(paths@[order@[k + 1] as int]@),
                ),
        decreases n - i,
    {
        if leaf[i] {
            any_leaf = true;
        }
        let mut keep = false;
        let mut j: usize = 1;
        while j < n && !keep
            invariant
                n == entries@.len(),
                1 <= i < n,
                1 <= j <= n,
                !keep ==> j <= n,
                leaf@.len() == n,
                forall|j: int| 0 <= j < n ==> #[trigger] leaf@[j] == (j >= 1 && is_test_file(entries@[j])),
                keep ==> kept(entries@, i as int),
                !keep ==> forall|x: int|
                    1 <= x < j ==> !(is_test_file(#[trigger] entries@[x]) && is_prefix(
                        comps(entries@[i as int]),
                        comps(entries@[x]),
                    )),
            decreases n - j,
        {
            if leaf[j] && prefix_of(&entries[i].components, &entries[j].components) {
                keep = true;
            }
            j = j + 1;
        }
        if keep {
            let ghost before = order@;
            insert_ordered(&mut order, &paths, i);
            proof {
                let p = choose|p: int| 0 <= p <= before.len() && order@ == before.insert(p, i);
                before.insert_ensures(p, i);
                assert forall|x: usize| #[trigger] order@.contains(x) implies 1 <= x < i + 1
                    && kept(entries@, x as int) by {
                    let k = choose|k: int| 0 <= k < order@.len() && order@[k] == x;
                    if k < p {
                        assert(before.contains(before[k]));
                    } else if k > p {
                        assert(before.contains(before[k - 1]));
                    }
                }
                assert forall|x: usize| 1 <= x < i + 1 && kept(entries@, x as int) implies #[trigger] order@.contains(
                    x,
                ) by {
                    if x < i {
                        assert(before.contains(x));
                        let k = choose|k: int| 0 <= k < before.len() && before[k] == x;
                        if k < p {
                            assert(order@[k] == x);
                        } else {
                            assert(order@[k + 1] == x);
                        }
                    } else {
                        assert(order@[p] == x);
                    }
                }
                assert forall|a: int, b: int|
                    0 <= a < order@.len() && 0 <= b < order@.len() && a != b implies order@[a]
                    != order@[b] by {
                    if a != p && b != p {
                        let a0 = if a < p { a } else { a - 1 };
                        let b0 = if b < p { b } else { b - 1 };
                        assert(order@[a] == before[a0] && order@[b] == before[b0]);
                    } else if a == p {
                        let b0 = if b < p { b } else { b - 1 };
                        assert(order@[b] == before[b0]);
                        assert(before.contains(before[b0]));
                    } else {
                        let a0 = if a < p { a } else { a - 1 };
                        assert(order@[a] == before[a0]);
                        assert(before.contains(before[a0]));
                    }
                }
            }
        } else {
            proof {
                assert forall|x: usize| 1 <= x < i + 1 && kept(entries@, x as int) implies #[trigger] order@.contains(
                    x,
                ) by {
                    if x == i {
                        let w = choose|w: int|
                            1 <= w < entries@.len() && is_test_file(#[trigger] entries@[w])
                                && is_prefix(comps(entries@[x as int]), comps(entries@[w]));
                        assert(leaf@[w]);
                    }
                }
            }
        }
        i = i + 1;
    }
    if !any_leaf {
        return Err(Error::Empty);
    }
    assert(has_tests(entries@)) by {
        let j = choose|j: int| 1 <= j < i && is_test_file(#[trigger] entries@[j]);
        assert(1 <= j < entries@.len() && is_test_file(entries@[j]));
    }
    assert forall|j: int| 0 <= j < order@.len() implies 1 <= #[trigger] order@[j] by {
        assert(order@.contains(order@[j]));
    }
    let mut modules: Vec<Module> = Vec::new();
    let mut k: usize = 0;
    while k < order.len()
        invariant
            n == entries@.len(),
            paths@.len() == n,
            forall|j: int| 0 <= j < n ==> views(#[trigger] paths@[j]@) == entry_path(entries@[j]),
            forall|j: int| 0 <= j < n ==> #[trigger] leaf@[j] == (j >= 1 && is_test_file(entries@[j])),
            leaf@.len() == n,
            forall|j: int| 0 <= j < order@.len() ==> order@[j] < paths.len(),
            forall|j: int| 0 <= j < order@.len() ==> 1 <= #[trigger] order@[j],
            0 <= k <= order@.len(),
            modules@.len() == k,
            forall|j: int|
                0 <= j < k ==> (#[trigger] modules@[j])@ == entry_module(entries@[order@[j] as int]),
        decreases order.len() - k,
    {
        let idx = order[k];
        let file = if leaf[idx] {
            Some(entries[idx].path.clone())
        } else {
            None
        };
        modules.push(Module { mod_path: copy_strings(&paths[idx]), file });
        k = k + 1;
    }
    let ghost src = order@.map_values(|x: usize| x as int);
    let g = ModuleGraph { modules, sources: Ghost(src) };
    proof {
        assert forall|k: int| 0 <= k < g@.len() implies g@[k] == entry_module(
            #[trigger] entries@[src[k]],
        ) by {
            assert(g@[k] == modules@[k]@);
        }
        assert forall|x: int| #[trigger] src.contains(x) <==> kept(entries@, x) by {
            if src.contains(x) {
                let k = choose|k: int| 0 <= k < src.len() && src[k] == x;
                assert(order@.contains(order@[k]));
            }
            if kept(entries@, x) {
                let y = x as usize;
                assert(order@.contains(y));
                let k = choose|k: int| 0 <= k < order@.len() && order@[k] == y;
                assert(src[k] == x);
            }
        }
        assert forall|a: int, b: int| 0 <= a < src.len() && 0 <= b < src.len() && a != b implies src[a]
            != src[b] by {
            assert(order@[a] != order@[b]);
        }
        assert forall|k: int| 0 <= k < g@.len() - 1 implies path_le(#[trigger] g@[k].0, g@[k + 1].0) by {
            assert(g@[k] == modules@[k]@);
            assert(g@[k + 1] == modules@[k + 1]@);
            assert(path_le(
                views(paths@[order@[k] as int]@),
                views(paths@[order@[k + 1] as int]@),
            ));
        }
    }
    Ok(g)
}

} // verus!
