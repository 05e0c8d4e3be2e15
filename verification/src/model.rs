//! Data exchanged by the analysis: modules, edges, impact results, progress.
use vstd::prelude::*;
use vstd::hash_map::StringHashMap;

verus! {

/// How an importer refers to its dependency.
#[derive(Clone, Copy, Debug, PartialEq, Eq, Structural, Hash, PartialOrd, Ord)]
pub enum DependencyKind {
    Static,
    Export,
    Dynamic,
    Require,
    Include,
    Module,
    Use,
}

/// The position of a kind in declaration order (the order of the derived `Ord`).
pub open spec fn kind_rank(k: DependencyKind) -> int {
    match k {
        DependencyKind::Static => 0,
        DependencyKind::Export => 1,
        DependencyKind::Dynamic => 2,
        DependencyKind::Require => 3,
        DependencyKind::Include => 4,
        DependencyKind::Module => 5,
        DependencyKind::Use => 6,
    }
}

/// The rank of a kind, as a number.
pub fn kind_index(k: DependencyKind) -> (r: u8)
    ensures
        r == kind_rank(k),
{
    match k {
        DependencyKind::Static => 0,
        DependencyKind::Export => 1,
        DependencyKind::Dynamic => 2,
        DependencyKind::Require => 3,
        DependencyKind::Include => 4,
        DependencyKind::Module => 5,
        DependencyKind::Use => 6,
    }
}

/// An import that could not be tied to a scanned file.
#[derive(Clone, Debug)]
pub struct UnresolvedImport {
    pub specifier: String,
    pub kind: DependencyKind,
    pub reason: String,
}

/// An internal edge, importer -> dependency.
#[derive(Clone, Debug)]
pub struct DependencyEdge {
    pub source: String,
    pub target: String,
    pub kind: DependencyKind,
}

/// One scanned source file and its graph metrics. The blast ratio is
/// `blast_radius / module count`; callers that present it divide.
#[derive(Clone, Debug)]
pub struct ModuleAnalysis {
    pub id: String,
    pub relative_path: String,
    pub file_name: String,
    pub extension: String,
    pub directory: String,
    pub lines_of_code: usize,
    pub imports: Vec<String>,
    pub imported_by: Vec<String>,
    pub fan_in: usize,
    pub fan_out: usize,
    pub dependency_depth: usize,
    pub blast_radius: usize,
    pub cycle_id: Option<usize>,
    pub is_entry_like: bool,
    pub unresolved_imports: Vec<UnresolvedImport>,
}

/// A breadth-first trace of the importers affected when one module disappears.
/// The affected ratio is `total_affected / module_count`.
#[derive(Clone, Debug, PartialEq, Eq)]
pub struct ImpactResult {
    pub removed_module_id: String,
    pub total_affected: usize,
    pub module_count: usize,
    pub direct_affected: usize,
    pub transitive_affected: usize,
    pub max_cascade_depth: usize,
    pub waves: Vec<Vec<String>>,
}

/// Progress of a running analysis.
#[derive(Clone, Debug)]
pub struct ScanProgress {
    pub stage: String,
    pub completed: Option<usize>,
    pub total: Option<usize>,
}

impl ScanProgress {
    /// Progress at `stage` with `completed` items done out of `total`.
    pub fn new(stage: &str, completed: usize, total: Option<usize>) -> (r: Self)
        ensures
            r.stage@ == stage@,
            r.completed == Some(completed),
            r.total == total,
    {
        ScanProgress { stage: stage.to_string(), completed: Some(completed), total }
    }
}

/// A set of repository-relative file identifiers.
pub struct FileSet {
    map: StringHashMap<()>,
}

impl View for FileSet {
    type V = Set<Seq<char>>;

    closed spec fn view(&self) -> Set<Seq<char>> {
        self.map@.dom()
    }
}

impl FileSet {
    /// An empty set.
    pub fn new() -> (r: Self)
        ensures
            r@ == Set::<Seq<char>>::empty(),
    {
        let r = FileSet { map: StringHashMap::new() };
        assert(r@ =~= Set::<Seq<char>>::empty());
        r
    }

    /// Adds `id` to the set.
    pub fn insert(&mut self, id: &str)
        ensures
            final(self)@ == old(self)@.insert(id@),
    {
        self.map.insert(id.to_string(), ());
        assert(self@ =~= old(self)@.insert(id@));
    }

    /// Whether `id` is in the set.
    pub fn contains(&self, id: &str) -> (r: bool)
        ensures
            r == self@.contains(id@),
    {
        self.map.contains_key(id)
    }

    /// A set holding exactly the given identifiers.
    pub fn from_ids(ids: &Vec<String>) -> (r: Self)
        ensures
            forall|s: Seq<char>| r@.contains(s) <==> exists|i: int|
                0 <= i < ids@.len() && #[trigger] ids@[i]@ == s,
    {
        let mut r = FileSet::new();
        let mut i: usize = 0;
        while i < ids.len()
            invariant
                i <= ids.len(),
                forall|s: Seq<char>| r@.contains(s) <==> exists|k: int|
                    0 <= k < i && #[trigger] ids@[k]@ == s,
            decreases ids.len() - i,
        {
            r.insert(ids[i].as_str());
            proof {
                assert forall|s: Seq<char>| r@.contains(s) <==> exists|k: int|
                    0 <= k < i + 1 && #[trigger] ids@[k]@ == s by {
                    if r@.contains(s) && s != ids@[i as int]@ {
                        let k = choose|k: int| 0 <= k < i && #[trigger] ids@[k]@ == s;
                        assert(0 <= k < i + 1);
                    }
                    if s == ids@[i as int]@ {
                        assert(ids@[i as int]@ == s);
                    }
                }
            }
            i += 1;
        }
        r
    }
}

} // verus!
