//! Cross-slice import loader.
//!
//! Resolves `use "<relative-path>" as <alias>` declarations to parsed
//! files. Pluggable through the [`Loader`] trait, so tests can use the
//! in-memory [`InMemoryLoader`] instead of the filesystem.
//!
//! Paths are strings; two paths name the same file when their components
//! agree (`/root/./a` and `/root/a` do), which [`path_key`] makes exact.
//! Cycle detection keeps the chain of files being loaded and refuses to
//! re-enter one of them.

use vstd::prelude::*;

use crate::ast::{File, Import};
use crate::diagnostic::codes;
use crate::diagnostic::{Diagnostic, Severity};
use crate::parser;
use crate::span::Span;
use crate::text::{cat, owned, str_eq};

verus! {

// ---------------------------------------------------------------------------
// Paths (std::path)
// ---------------------------------------------------------------------------

/// The normal form of a path: its components joined again, so that two
/// paths name the same file exactly when their normal forms are equal.
pub uninterp spec fn spec_path_key(p: Seq<char>) -> Seq<char>;

/// The parent of a path, if it has one.
pub uninterp spec fn spec_path_parent(p: Seq<char>) -> Option<Seq<char>>;

/// `target` joined onto `base`.
pub uninterp spec fn spec_path_join(base: Seq<char>, target: Seq<char>) -> Seq<char>;

/// `a` sorts before `b` in the order of `Path`'s `Ord`.
pub uninterp spec fn spec_path_before(a: Seq<char>, b: Seq<char>) -> bool;

/// Normal form of a path (std `Path::components`, collected back into a
/// path). Contract: the result is [`spec_path_key`] of the argument.
#[verifier::external_body]
pub fn path_key(p: &str) -> (r: String)
    ensures
        r@ == spec_path_key(p@),
{
    std::path::Path::new(p).components().collect::<std::path::PathBuf>().to_string_lossy().into_owned()
}

/// Parent of a path (std `Path::parent`). Contract: the result is
/// [`spec_path_parent`] of the argument.
#[verifier::external_body]
pub fn path_parent(p: &str) -> (r: Option<String>)
    ensures
        match r {
            Some(s) => spec_path_parent(p@) == Some(s@),
            None => spec_path_parent(p@) is None,
        },
{
    std::path::Path::new(p).parent().map(|q| q.to_string_lossy().into_owned())
}

/// Join a path onto a base (std `Path::join`). Contract: the result is
/// [`spec_path_join`] of the arguments.
#[verifier::external_body]
pub fn path_join(base: &str, target: &str) -> (r: String)
    ensures
        r@ == spec_path_join(base@, target@),
{
    std::path::Path::new(base).join(target).to_string_lossy().into_owned()
}

/// Component-wise path order (std `Path`'s `<`). Contract: the result is
/// [`spec_path_before`] of the arguments; a path does not sort before
/// itself.
#[verifier::external_body]
pub fn path_before(a: &str, b: &str) -> (r: bool)
    ensures
        r == spec_path_before(a@, b@),
        a@ == b@ ==> !r,
{
    std::path::Path::new(a) < std::path::Path::new(b)
}

/// Two paths name the same file.
pub fn same_path(a: &str, b: &str) -> (r: bool)
    ensures
        r == (spec_path_key(a@) == spec_path_key(b@)),
{
    let ka = path_key(a);
    let kb = path_key(b);
    str_eq(ka.as_str(), kb.as_str())
}

/// Where an import resolves by default: `target` joined onto the importing
/// file's parent directory (`.` when it has none).
pub open spec fn spec_import_target(importing_from: Seq<char>, target: Seq<char>) -> Seq<char> {
    let base = match spec_path_parent(importing_from) {
        Some(p) => p,
        None => "."@,
    };
    spec_path_join(base, target)
}

pub fn import_target(importing_from: &str, target: &str) -> (r: String)
    ensures
        r@ == spec_import_target(importing_from@, target@),
{
    let base = match path_parent(importing_from) {
        Some(p) => p,
        None => owned("."),
    };
    path_join(base.as_str(), target)
}

// ---------------------------------------------------------------------------
// Loaders
// ---------------------------------------------------------------------------

pub enum LoadError {
    NotFound(String),
    Io(String),
    InvalidPath(String),
}

pub open spec fn spec_load_error_message(e: LoadError) -> Seq<char> {
    match e {
        LoadError::NotFound(p) => "imported file not found: "@ + p@,
        LoadError::Io(m) => "io error reading import: "@ + m@,
        LoadError::InvalidPath(s) => "invalid import path: "@ + s@,
    }
}

impl LoadError {
    pub fn message(&self) -> (r: String)
        ensures
            r@ == spec_load_error_message(*self),
    {
        match self {
            LoadError::NotFound(p) => cat("imported file not found: ", p.as_str()),
            LoadError::Io(e) => cat("io error reading import: ", e.as_str()),
            LoadError::InvalidPath(s) => cat("invalid import path: ", s.as_str()),
        }
    }
}

/// A source of `.memspec` files. Production reads the filesystem; tests
/// use [`InMemoryLoader`].
pub trait Loader {
    /// The source text at `path` (a path in the loader's own canonical
    /// form), or why it cannot be had.
    fn read(&self, path: &str) -> Result<String, LoadError>;

    /// Where `target`, imported from the file at `importing_from`,
    /// resolves. By default: joined onto the importing file's parent.
    fn canonicalize(&self, importing_from: &str, target: &str) -> Result<String, LoadError> {
        Ok(import_target(importing_from, target))
    }
}

/// In-memory loader for tests and validation: path, source pairs, at most
/// one per file.
pub struct InMemoryLoader {
    pub files: Vec<(String, String)>,
}

/// The source recorded for the file `path` names, if any.
pub open spec fn source_for(files: Seq<(String, String)>, path: Seq<char>) -> Option<Seq<char>>
    decreases files.len(),
{
    if files.len() == 0 {
        None
    } else if spec_path_key(files[0].0@) == spec_path_key(path) {
        Some(files[0].1@)
    } else {
        source_for(files.drop_first(), path)
    }
}

proof fn lemma_source_for_first(files: Seq<(String, String)>, j: int, q: Seq<char>)
    requires
        0 <= j < files.len(),
        spec_path_key(files[j].0@) == spec_path_key(q),
        forall|i: int| 0 <= i < j ==> spec_path_key((#[trigger] files[i]).0@) != spec_path_key(q),
    ensures
        source_for(files, q) == Some(files[j].1@),
    decreases j,
{
    if j > 0 {
        assert forall|i: int| 0 <= i < j - 1 implies spec_path_key((#[trigger] files.drop_first()[i]).0@)
            != spec_path_key(q) by {
            assert(files.drop_first()[i] == files[i + 1]);
        }
        lemma_source_for_first(files.drop_first(), j - 1, q);
    }
}

proof fn lemma_source_for_update_other(files: Seq<(String, String)>, i: int, e: (String, String), q: Seq<char>)
    requires
        0 <= i < files.len(),
        spec_path_key(e.0@) != spec_path_key(q),
        spec_path_key(files[i].0@) != spec_path_key(q),
    ensures
        source_for(files.update(i, e), q) == source_for(files, q),
    decreases files.len(),
{
    if i > 0 {
        assert(files.update(i, e).drop_first() =~= files.drop_first().update(i - 1, e));
        lemma_source_for_update_other(files.drop_first(), i - 1, e, q);
    } else {
        assert(files.update(i, e).drop_first() =~= files.drop_first());
    }
}

proof fn lemma_source_for_push_other(files: Seq<(String, String)>, e: (String, String), q: Seq<char>)
    requires
        spec_path_key(e.0@) != spec_path_key(q),
    ensures
        source_for(files.push(e), q) == source_for(files, q),
    decreases files.len(),
{
    if files.len() > 0 {
        assert(files.push(e).drop_first() =~= files.drop_first().push(e));
        lemma_source_for_push_other(files.drop_first(), e, q);
    } else {
        assert(files.push(e).drop_first() =~= files);
    }
}

impl InMemoryLoader {
    pub fn new() -> (r: Self)
        ensures
            r.files@.len() == 0,
    {
        InMemoryLoader { files: Vec::new() }
    }

    /// The loader with `source` recorded at `path` (replacing what was
    /// recorded for the same file).
    pub fn with_file(self, path: &str, source: &str) -> (r: Self)
        ensures
            source_for(r.files@, path@) == Some(source@),
            forall|q: Seq<char>|
                spec_path_key(q) != spec_path_key(path@) ==> #[trigger] source_for(r.files@, q)
                    == source_for(self.files@, q),
    {
        let mut files = self.files;
        let ghost old_files = files@;
        let key = path_key(path);
        let mut i: usize = 0;
        while i < files.len()
            invariant
                i <= files@.len(),
                files@ == old_files,
                old_files == self.files@,
                key@ == spec_path_key(path@),
                forall|j: int| 0 <= j < i ==> spec_path_key((#[trigger] files@[j]).0@) != key@,
            decreases files@.len() - i,
        {
            let k = path_key(files[i].0.as_str());
            if str_eq(k.as_str(), key.as_str()) {
                let p = files[i].0.clone();
                assert(p == old_files[i as int].0);
                assert(spec_path_key(old_files[i as int].0@) == spec_path_key(path@));
                let e = (p, owned(source));
                files.set(i, e);
                proof {
                    assert(files@ == old_files.update(i as int, e));
                    lemma_source_for_first(files@, i as int, path@);
                    assert forall|q: Seq<char>| spec_path_key(q) != spec_path_key(path@) implies #[trigger] source_for(
                        files@,
                        q,
                    ) == source_for(old_files, q) by {
                        assert(e.0@ == old_files[i as int].0@);
                        assert(spec_path_key(e.0@) != spec_path_key(q));
                        lemma_source_for_update_other(old_files, i as int, e, q);
                    }
                    assert(old_files == self.files@);
                }
                return InMemoryLoader { files };
            }
            i = i + 1;
        }
        let e = (owned(path), owned(source));
        files.push(e);
        proof {
            assert(files@ == old_files.push(e));
            assert(files@[old_files.len() as int] == e);
            lemma_source_for_first(files@, old_files.len() as int, path@);
            assert forall|q: Seq<char>| spec_path_key(q) != spec_path_key(path@) implies #[trigger] source_for(
                files@,
                q,
            ) == source_for(old_files, q) by {
                lemma_source_for_push_other(old_files, e, q);
            }
        }
        InMemoryLoader { files }
    }
}

impl Loader for InMemoryLoader {
    fn read(&self, path: &str) -> (r: Result<String, LoadError>)
        ensures
            match r {
                Ok(s) => source_for(self.files@, path@) == Some(s@),
                Err(e) => source_for(self.files@, path@) is None && (e matches LoadError::NotFound(p) && p@ == path@),
            },
    {
        let key = path_key(path);
        let mut i: usize = 0;
        assert(self.files@.subrange(0, self.files@.len() as int) =~= self.files@);
        while i < self.files.len()
            invariant
                i <= self.files@.len(),
                source_for(self.files@, path@) == source_for(self.files@.subrange(i as int, self.files@.len() as int), path@),
                key@ == spec_path_key(path@),
            decreases self.files@.len() - i,
        {
            let ghost rest = self.files@.subrange(i as int, self.files@.len() as int);
            assert(rest.drop_first() =~= self.files@.subrange(i as int + 1, self.files@.len() as int));
            let k = path_key(self.files[i].0.as_str());
            if str_eq(k.as_str(), key.as_str()) {
                return Ok(owned(self.files[i].1.as_str()));
            }
            i = i + 1;
        }
        Err(LoadError::NotFound(owned(path)))
    }
}

// ---------------------------------------------------------------------------
// The working set
// ---------------------------------------------------------------------------

/// One file of the working set.
pub struct LoadedFile {
    pub path: String,
    pub source: String,
    pub file: File,
    pub diagnostics: Vec<Diagnostic>,
    /// Alias to the path of the imported file, for each `use` that
    /// resolved (one entry per alias; failed imports are absent and their
    /// diagnostics sit in `diagnostics`).
    pub imports_resolved: Vec<(String, String)>,
}

/// The root file and every file it imports, transitively, each once, in
/// import-discovery order.
pub struct WorkingSet {
    pub root: String,
    pub files: Vec<LoadedFile>,
}

/// The path an alias resolves to in an alias map.
pub open spec fn alias_target(m: Seq<(String, String)>, alias: Seq<char>) -> Option<Seq<char>>
    decreases m.len(),
{
    if m.len() == 0 {
        None
    } else if m[0].0@ == alias {
        Some(m[0].1@)
    } else {
        alias_target(m.drop_first(), alias)
    }
}

/// The first file of the working set at `path`, from index `i`.
pub open spec fn file_index_from(files: Seq<LoadedFile>, path: Seq<char>, i: int) -> Option<int>
    decreases files.len() - i,
{
    if i < 0 || i >= files.len() {
        None
    } else if spec_path_key(files[i].path@) == spec_path_key(path) {
        Some(i)
    } else {
        file_index_from(files, path, i + 1)
    }
}

/// The path an alias resolves to, in a loaded file's alias map.
pub fn resolved_get<'a>(m: &'a Vec<(String, String)>, alias: &str) -> (r: Option<&'a String>)
    ensures
        match r {
            Some(p) => alias_target(m@, alias@) == Some(p@),
            None => alias_target(m@, alias@) is None,
        },
{
    let mut i: usize = 0;
    assert(m@.subrange(0, m@.len() as int) =~= m@);
    while i < m.len()
        invariant
            i <= m@.len(),
            alias_target(m@, alias@) == alias_target(m@.subrange(i as int, m@.len() as int), alias@),
        decreases m@.len() - i,
    {
        let ghost rest = m@.subrange(i as int, m@.len() as int);
        assert(rest.drop_first() =~= m@.subrange(i as int + 1, m@.len() as int));
        if str_eq(m[i].0.as_str(), alias) {
            return Some(&m[i].1);
        }
        i = i + 1;
    }
    None
}

proof fn lemma_alias_target_update(m: Seq<(String, String)>, i: int, e: (String, String), a: Seq<char>)
    requires
        0 <= i < m.len(),
        m[i].0@ != a,
        e.0@ != a,
    ensures
        alias_target(m.update(i, e), a) == alias_target(m, a),
    decreases m.len(),
{
    if i > 0 {
        assert(m.update(i, e).drop_first() =~= m.drop_first().update(i - 1, e));
        lemma_alias_target_update(m.drop_first(), i - 1, e, a);
    } else {
        assert(m.update(i, e).drop_first() =~= m.drop_first());
    }
}

proof fn lemma_alias_target_push(m: Seq<(String, String)>, e: (String, String), a: Seq<char>)
    ensures
        alias_target(m.push(e), a) == if alias_target(m, a) is Some {
            alias_target(m, a)
        } else if e.0@ == a {
            Some(e.1@)
        } else {
            None
        },
    decreases m.len(),
{
    if m.len() > 0 {
        assert(m.push(e).drop_first() =~= m.drop_first().push(e));
        lemma_alias_target_push(m.drop_first(), e, a);
    } else {
        assert(m.push(e).drop_first() =~= m);
    }
}

proof fn lemma_alias_target_first(m: Seq<(String, String)>, j: int, a: Seq<char>)
    requires
        0 <= j < m.len(),
        m[j].0@ == a,
        forall|i: int| 0 <= i < j ==> (#[trigger] m[i]).0@ != a,
    ensures
        alias_target(m, a) == Some(m[j].1@),
    decreases j,
{
    if j > 0 {
        assert forall|i: int| 0 <= i < j - 1 implies (#[trigger] m.drop_first()[i]).0@ != a by {
            assert(m.drop_first()[i] == m[i + 1]);
        }
        lemma_alias_target_first(m.drop_first(), j - 1, a);
    }
}

/// Record that `alias` resolves to `path` (replacing an earlier entry).
fn resolved_insert(m: &mut Vec<(String, String)>, alias: &str, path: &str)
    ensures
        alias_target(final(m)@, alias@) == Some(path@),
        forall|a: Seq<char>| a != alias@ ==> #[trigger] alias_target(final(m)@, a) == alias_target(old(m)@, a),
        forall|j: int|
            0 <= j < final(m)@.len() ==> (#[trigger] final(m)@[j]).1@ == path@ || exists|k: int|
                0 <= k < old(m)@.len() && old(m)@[k].1@ == final(m)@[j].1@,
{
    let ghost o = m@;
    let mut i: usize = 0;
    while i < m.len()
        invariant
            i <= m@.len(),
            m@ == o,
            o == old(m)@,
            forall|j: int| 0 <= j < i ==> (#[trigger] m@[j]).0@ != alias@,
        decreases m@.len() - i,
    {
        if str_eq(m[i].0.as_str(), alias) {
            let e = (owned(alias), owned(path));
            m.set(i, e);
            proof {
                assert(m@ == o.update(i as int, e));
                lemma_alias_target_first(m@, i as int, alias@);
                assert forall|a: Seq<char>| a != alias@ implies #[trigger] alias_target(m@, a) == alias_target(o, a) by {
                    lemma_alias_target_update(o, i as int, e, a);
                }
                assert forall|j: int| 0 <= j < m@.len() implies (#[trigger] m@[j]).1@ == path@ || exists|k: int|
                    0 <= k < o.len() && o[k].1@ == m@[j].1@ by {
                    if j != i {
                        assert(m@[j] == o[j]);
                    }
                }
            }
            return;
        }
        i = i + 1;
    }
    let e = (owned(alias), owned(path));
    m.push(e);
    proof {
        assert(m@ == o.push(e));
        lemma_alias_target_first(m@, o.len() as int, alias@);
        assert forall|a: Seq<char>| a != alias@ implies #[trigger] alias_target(m@, a) == alias_target(o, a) by {
            lemma_alias_target_push(o, e, a);
        }
        assert forall|j: int| 0 <= j < m@.len() implies (#[trigger] m@[j]).1@ == path@ || exists|k: int|
            0 <= k < o.len() && o[k].1@ == m@[j].1@ by {
            if j < o.len() {
                assert(m@[j] == o[j]);
            }
        }
    }
}

impl WorkingSet {
    /// The loaded root file.
    pub fn root_file(&self) -> (r: Option<&LoadedFile>)
        ensures
            match r {
                Some(f) => file_index_from(self.files@, self.root@, 0) matches Some(k) && self.files@[k] == *f,
                None => file_index_from(self.files@, self.root@, 0) is None,
            },
    {
        self.lookup(self.root.as_str())
    }

    /// The loaded file at `path`.
    pub fn lookup(&self, path: &str) -> (r: Option<&LoadedFile>)
        ensures
            match r {
                Some(f) => file_index_from(self.files@, path@, 0) matches Some(k) && self.files@[k] == *f,
                None => file_index_from(self.files@, path@, 0) is None,
            },
    {
        let key = path_key(path);
        let mut i: usize = 0;
        while i < self.files.len()
            invariant
                i <= self.files@.len(),
                key@ == spec_path_key(path@),
                file_index_from(self.files@, path@, 0) == file_index_from(self.files@, path@, i as int),
            decreases self.files@.len() - i,
        {
            let k = path_key(self.files[i].path.as_str());
            if str_eq(k.as_str(), key.as_str()) {
                return Some(&self.files[i]);
            }
            i = i + 1;
        }
        None
    }
}

/// What loading keeps true of the files loaded so far: `visited` holds
/// their normal-form paths, no file is loaded twice, and every resolved
/// import names a loaded file.
pub open spec fn loading_ok(files: Seq<LoadedFile>, visited: Seq<String>) -> bool {
    &&& visited.len() == files.len()
    &&& forall|k: int| 0 <= k < files.len() ==> (#[trigger] visited[k])@ == spec_path_key(files[k].path@)
    &&& forall|i: int, j: int|
        0 <= i < j < files.len() ==> spec_path_key((#[trigger] files[i]).path@) != spec_path_key(
            (#[trigger] files[j]).path@,
        )
    &&& resolved_in(files)
}

/// Every target of an alias map names a file of the set.
pub open spec fn targets_in(m: Seq<(String, String)>, files: Seq<LoadedFile>) -> bool {
    forall|j: int|
        0 <= j < m.len() ==> exists|k: int|
            0 <= k < files.len() && spec_path_key(files[k].path@) == spec_path_key((#[trigger] m[j]).1@)
}

/// Every resolved import of every file names a file of the set.
pub open spec fn resolved_in(files: Seq<LoadedFile>) -> bool {
    forall|i: int, j: int|
        0 <= i < files.len() && 0 <= j < files[i].imports_resolved@.len() ==> exists|k: int|
            0 <= k < files.len() && spec_path_key(files[k].path@) == spec_path_key(
                (#[trigger] files[i].imports_resolved@[j]).1@,
            )
}

fn contains_key(keys: &Vec<String>, key: &str) -> (r: bool)
    ensures
        r == exists|k: int| 0 <= k < keys@.len() && (#[trigger] keys@[k])@ == key@,
{
    let mut i: usize = 0;
    while i < keys.len()
        invariant
            i <= keys@.len(),
            forall|k: int| 0 <= k < i ==> (#[trigger] keys@[k])@ != key@,
        decreases keys@.len() - i,
    {
        if str_eq(keys[i].as_str(), key) {
            return true;
        }
        i = i + 1;
    }
    false
}

/// The number of files a load may add before it stops following imports.
pub const LOAD_BUDGET: usize = 0xffff_ffff;

/// Load the file at `root_path` and, recursively, every file it imports.
/// Per-file diagnostics sit in each loaded file; an import that fails is
/// reported on the importing file, at the `use` path's span.
pub fn load_with_imports<L: Loader>(loader: &L, root_path: &str) -> (ws: WorkingSet)
    ensures
        ws.root@ == root_path@,
        ws.files@.len() >= 1,
        ws.files@[0].path@ == root_path@,
        forall|i: int, j: int|
            0 <= i < j < ws.files@.len() ==> spec_path_key((#[trigger] ws.files@[i]).path@) != spec_path_key(
                (#[trigger] ws.files@[j]).path@,
            ),
        resolved_in(ws.files@),
        imports_accounted(
            imports_of(ws.files@[0].file),
            imports_of(ws.files@[0].file).len() as int,
            ws.files@[0].imports_resolved@,
            ws.files@[0].diagnostics@,
        ),
{
    let mut visited: Vec<String> = Vec::new();
    let mut files: Vec<LoadedFile> = Vec::new();
    match loader.read(root_path) {
        Ok(source) => {
            let pr = parser::parse(source.as_str());
            files.push(
                LoadedFile {
                    path: owned(root_path),
                    source,
                    file: pr.file,
                    diagnostics: pr.diagnostics,
                    imports_resolved: Vec::new(),
                },
            );
            visited.push(path_key(root_path));
            let mut chain: Vec<String> = Vec::new();
            chain.push(path_key(root_path));
            let ghost f0 = files@;
            walk_imports_of(loader, 0, &mut visited, &mut files, &mut chain, LOAD_BUDGET);
            proof {
                let d = files@[0].diagnostics@;
                lemma_accounted_wider(
                    imports_of(files@[0].file),
                    imports_of(files@[0].file).len() as int,
                    files@[0].imports_resolved@,
                    d,
                    f0[0].diagnostics@.len() as int,
                );
            }
        },
        Err(e) => {
            let mut diagnostics: Vec<Diagnostic> = Vec::new();
            diagnostics.push(Diagnostic::error(codes::E_LOADER_NOT_FOUND, Span::new(0, 0), e.message()));
            files.push(
                LoadedFile {
                    path: owned(root_path),
                    source: String::new(),
                    file: File { span: Span::new(0, 0), slice: None },
                    diagnostics,
                    imports_resolved: Vec::new(),
                },
            );
        },
    }
    WorkingSet { root: owned(root_path), files }
}

/// The imports a parsed file declares.
pub open spec fn imports_of(f: File) -> Seq<Import> {
    match f.slice {
        Some(s) => s.imports@,
        None => seq![],
    }
}

/// Each of the first `n` imports either resolved (its alias has a target in
/// `res`) or was reported by one of `diags` at the import's path.
pub open spec fn imports_accounted(imps: Seq<Import>, n: int, res: Seq<(String, String)>, diags: Seq<Diagnostic>) -> bool {
    forall|m: int|
        0 <= m < n ==> alias_target(res, (#[trigger] imps[m]).alias.name@) is Some || exists|q: int|
            0 <= q < diags.len() && diags[q].span == imps[m].path_span
}

proof fn lemma_accounted_wider(imps: Seq<Import>, n: int, res: Seq<(String, String)>, diags: Seq<Diagnostic>, a: int)
    requires
        0 <= a <= diags.len(),
        imports_accounted(imps, n, res, diags.subrange(a, diags.len() as int)),
    ensures
        imports_accounted(imps, n, res, diags),
{
    let sub = diags.subrange(a, diags.len() as int);
    assert forall|m: int| 0 <= m < n implies alias_target(res, (#[trigger] imps[m]).alias.name@) is Some || exists|q: int|
        0 <= q < diags.len() && diags[q].span == imps[m].path_span by {
        if alias_target(res, imps[m].alias.name@) is None {
            let q = choose|q: int| 0 <= q < sub.len() && sub[q].span == imps[m].path_span;
            assert(diags[a + q] == sub[q]);
        }
    }
}

proof fn lemma_accounted_by_diag(imps: Seq<Import>, n: int, res: Seq<(String, String)>, pre: Seq<Diagnostic>, d: Diagnostic)
    requires
        0 <= n < imps.len(),
        imports_accounted(imps, n, res, pre),
        d.span == imps[n].path_span,
    ensures
        imports_accounted(imps, n + 1, res, pre.push(d)),
{
    let post = pre.push(d);
    assert forall|m: int| 0 <= m < n + 1 implies alias_target(res, (#[trigger] imps[m]).alias.name@) is Some || exists|q: int|
        0 <= q < post.len() && post[q].span == imps[m].path_span by {
        if m == n {
            assert(post[pre.len() as int] == d);
        } else if alias_target(res, imps[m].alias.name@) is None {
            let q = choose|q: int| 0 <= q < pre.len() && pre[q].span == imps[m].path_span;
            assert(post[q] == pre[q]);
        }
    }
}

proof fn lemma_accounted_by_alias(
    imps: Seq<Import>,
    n: int,
    pre: Seq<(String, String)>,
    post: Seq<(String, String)>,
    diags: Seq<Diagnostic>,
)
    requires
        0 <= n < imps.len(),
        imports_accounted(imps, n, pre, diags),
        alias_target(post, imps[n].alias.name@) is Some,
        forall|a: Seq<char>| a != imps[n].alias.name@ ==> #[trigger] alias_target(post, a) == alias_target(pre, a),
    ensures
        imports_accounted(imps, n + 1, post, diags),
{
    assert forall|m: int| 0 <= m < n + 1 implies alias_target(post, (#[trigger] imps[m]).alias.name@) is Some || exists|q: int|
        0 <= q < diags.len() && diags[q].span == imps[m].path_span by {
        if imps[m].alias.name@ != imps[n].alias.name@ {
            assert(alias_target(post, imps[m].alias.name@) == alias_target(pre, imps[m].alias.name@));
        }
    }
}

/// Follow the imports of `files[importer_idx]`: resolve each target, refuse
/// one already on the import chain, record one already loaded, and load,
/// parse and follow a new one. Failures are reported on the importer.
/// Loads at most `budget` new files; returns what is left of it.
fn walk_imports_of<L: Loader>(
    loader: &L,
    importer_idx: usize,
    visited: &mut Vec<String>,
    files: &mut Vec<LoadedFile>,
    chain: &mut Vec<String>,
    limit: usize,
) -> (remaining: usize)
    requires
        importer_idx < old(files)@.len(),
        old(files)@[importer_idx as int].imports_resolved@.len() == 0,
        loading_ok(old(files)@, old(visited)@),
    ensures
        remaining <= limit,
        final(files)@.len() >= old(files)@.len(),
        forall|k: int| 0 <= k < old(files)@.len() ==> (#[trigger] final(files)@[k]).path == old(files)@[k].path,
        loading_ok(final(files)@, final(visited)@),
        forall|k: int| 0 <= k < old(files)@.len() && k != importer_idx ==> #[trigger] final(files)@[k] == old(files)@[k],
        final(files)@[importer_idx as int].source == old(files)@[importer_idx as int].source,
        final(files)@[importer_idx as int].file == old(files)@[importer_idx as int].file,
        final(files)@[importer_idx as int].diagnostics@.len() >= old(files)@[importer_idx as int].diagnostics@.len(),
        final(files)@[importer_idx as int].diagnostics@.subrange(0, old(files)@[importer_idx as int].diagnostics@.len() as int)
            == old(files)@[importer_idx as int].diagnostics@,
        imports_accounted(
            imports_of(old(files)@[importer_idx as int].file),
            imports_of(old(files)@[importer_idx as int].file).len() as int,
            final(files)@[importer_idx as int].imports_resolved@,
            final(files)@[importer_idx as int].diagnostics@.subrange(
                old(files)@[importer_idx as int].diagnostics@.len() as int,
                final(files)@[importer_idx as int].diagnostics@.len() as int,
            ),
        ),
    decreases limit,
{
    let ghost imps = imports_of(files@[importer_idx as int].file);
    let count: usize = match &files[importer_idx].file.slice {
        Some(s) => s.imports.len(),
        None => 0,
    };
    let importer_path = owned(files[importer_idx].path.as_str());
    let mut new_diags: Vec<Diagnostic> = Vec::new();
    let mut resolved: Vec<(String, String)> = Vec::new();
    let mut budget = limit;
    let ghost files0 = files@;
    let mut n: usize = 0;
    while n < count
        invariant
            importer_idx < files@.len(),
            files@.len() >= files0.len(),
            files0.len() > importer_idx,
            forall|k: int| 0 <= k < files0.len() ==> (#[trigger] files@[k]).path == files0[k].path,
            forall|k: int| 0 <= k < files0.len() ==> #[trigger] files@[k] == files0[k],
            loading_ok(files@, visited@),
            targets_in(resolved@, files@),
            budget <= limit,
            importer_path@ == files0[importer_idx as int].path@,
            imps == imports_of(files0[importer_idx as int].file),
            count == imps.len(),
            n <= count,
            imports_accounted(imps, n as int, resolved@, new_diags@),
        decreases count - n,
    {
        let (ipath, ialias, ispan) = match &files[importer_idx].file.slice {
            Some(s) => (owned(s.imports[n].path.as_str()), owned(s.imports[n].alias.name.as_str()), s.imports[n].path_span),
            None => {
                proof {
                    assert(false);
                }
                return budget;
            },
        };
        let ghost imp = imps[n as int];
        proof {
            assert(ispan == imp.path_span);
            assert(ialias@ == imp.alias.name@);
        }
        let target = match loader.canonicalize(importer_path.as_str(), ipath.as_str()) {
            Ok(p) => p,
            Err(e) => {
                let msg = cat("cannot resolve import path: ", e.message().as_str());
                let d = Diagnostic::error(codes::E_LOADER_NOT_FOUND, ispan, msg);
                let ghost d0 = new_diags@;
                new_diags.push(d);
                proof {
                    lemma_accounted_by_diag(imps, n as int, resolved@, d0, d);
                }
                n = n + 1;
                continue;
            },
        };
        let key = path_key(target.as_str());
        if contains_key(chain, key.as_str()) {
            let mut msg = cat("import cycle detected: `", target.as_str());
            msg.append("` is already on the import chain");
            let d = Diagnostic::error(codes::E_LOADER_IMPORT_CYCLE, ispan, msg).with_hint(
                owned("break the cycle by removing the offending `use` declaration or restructuring the slices"),
            );
            let ghost d0 = new_diags@;
            new_diags.push(d);
            proof {
                lemma_accounted_by_diag(imps, n as int, resolved@, d0, d);
            }
            n = n + 1;
            continue;
        }
        if contains_key(visited, key.as_str()) {
            let ghost r0 = resolved@;
            resolved_insert(&mut resolved, ialias.as_str(), target.as_str());
            proof {
                let k = choose|k: int| 0 <= k < visited@.len() && (#[trigger] visited@[k])@ == key@;
                assert(spec_path_key(files@[k].path@) == spec_path_key(target@));
                assert forall|j: int| 0 <= j < resolved@.len() implies exists|k2: int|
                    0 <= k2 < files@.len() && spec_path_key(files@[k2].path@) == spec_path_key(
                        (#[trigger] resolved@[j]).1@,
                    ) by {
                    if resolved@[j].1@ != target@ {
                        let q = choose|q: int| 0 <= q < r0.len() && r0[q].1@ == resolved@[j].1@;
                        assert(r0[q].1@ == resolved@[j].1@);
                    }
                }
                lemma_accounted_by_alias(imps, n as int, r0, resolved@, new_diags@);
            }
            n = n + 1;
            continue;
        }
        match loader.read(target.as_str()) {
            Ok(source) => {
                let pr = parser::parse(source.as_str());
                let ghost fb = files@;
                files.push(
                    LoadedFile {
                        path: owned(target.as_str()),
                        source,
                        file: pr.file,
                        diagnostics: pr.diagnostics,
                        imports_resolved: Vec::new(),
                    },
                );
                visited.push(key);
                let ghost r0 = resolved@;
                resolved_insert(&mut resolved, ialias.as_str(), target.as_str());
                proof {
                    lemma_accounted_by_alias(imps, n as int, r0, resolved@, new_diags@);
                    let nf = files@;
                    assert(nf[fb.len() as int].path@ == target@);
                    assert forall|i: int, j: int| 0 <= i < j < nf.len() implies spec_path_key(
                        (#[trigger] nf[i]).path@,
                    ) != spec_path_key((#[trigger] nf[j]).path@) by {
                        if j == fb.len() {
                            assert(visited@[i]@ == spec_path_key(nf[i].path@));
                        }
                    }
                    assert forall|i: int, j: int|
                        0 <= i < nf.len() && 0 <= j < nf[i].imports_resolved@.len() implies exists|k: int|
                            0 <= k < nf.len() && spec_path_key(nf[k].path@) == spec_path_key(
                                (#[trigger] nf[i].imports_resolved@[j]).1@,
                            ) by {
                        if i < fb.len() {
                            assert(nf[i] == fb[i]);
                            let k = choose|k: int|
                                0 <= k < fb.len() && spec_path_key(fb[k].path@) == spec_path_key(
                                    fb[i].imports_resolved@[j].1@,
                                );
                            assert(nf[k] == fb[k]);
                        }
                    }
                    assert forall|j: int| 0 <= j < resolved@.len() implies exists|k2: int|
                        0 <= k2 < nf.len() && spec_path_key(nf[k2].path@) == spec_path_key(
                            (#[trigger] resolved@[j]).1@,
                        ) by {
                        if resolved@[j].1@ == target@ {
                            assert(spec_path_key(nf[fb.len() as int].path@) == spec_path_key(target@));
                        } else {
                            let q = choose|q: int| 0 <= q < r0.len() && r0[q].1@ == resolved@[j].1@;
                            let k = choose|k: int|
                                0 <= k < fb.len() && spec_path_key(fb[k].path@) == spec_path_key(
                                    (#[trigger] r0[q]).1@,
                                );
                            assert(nf[k] == fb[k]);
                        }
                    }
                }
                if budget > 0 {
                    let new_idx = files.len() - 1;
                    chain.push(key_of_last(visited));
                    let ghost fr = files@;
                    budget = walk_imports_of(loader, new_idx, visited, files, chain, budget - 1);
                    chain.pop();
                    proof {
                        assert forall|j: int| 0 <= j < resolved@.len() implies exists|k2: int|
                            0 <= k2 < files@.len() && spec_path_key(files@[k2].path@) == spec_path_key(
                                (#[trigger] resolved@[j]).1@,
                            ) by {
                            let k = choose|k: int|
                                0 <= k < fr.len() && spec_path_key(fr[k].path@) == spec_path_key(
                                    (#[trigger] resolved@[j]).1@,
                                );
                            assert(files@[k].path == fr[k].path);
                        }
                        assert forall|k: int| 0 <= k < files0.len() implies #[trigger] files@[k] == files0[k] by {
                            assert(files@[k] == fr[k]);
                            assert(fr[k] == fb[k]);
                        }
                    }
                }
                assert(targets_in(resolved@, files@));
            },
            Err(e) => {
                let d = Diagnostic::error(codes::E_LOADER_NOT_FOUND, ispan, e.message());
                let ghost d0 = new_diags@;
                new_diags.push(d);
                proof {
                    lemma_accounted_by_diag(imps, n as int, resolved@, d0, d);
                }
                assert(targets_in(resolved@, files@));
            },
        }
        n = n + 1;
    }
    // Attach what this importer gathered.
    let ghost fe = files@;
    let ghost nd = new_diags@;
    let mut lf = files.remove(importer_idx);
    let ghost od = lf.diagnostics@;
    lf.diagnostics.append(&mut new_diags);
    lf.imports_resolved = resolved;
    files.insert(importer_idx, lf);
    proof {
        assert(files@ =~= fe.update(importer_idx as int, lf));
        lemma_update_importer(fe, visited@, importer_idx as int, lf);
        assert(od == files0[importer_idx as int].diagnostics@);
        assert(lf.diagnostics@ == od + nd);
        assert(lf.diagnostics@.subrange(0, od.len() as int) =~= od);
        assert(lf.diagnostics@.subrange(od.len() as int, lf.diagnostics@.len() as int) =~= nd);
    }
    budget
}

proof fn lemma_update_importer(files: Seq<LoadedFile>, visited: Seq<String>, i: int, lf: LoadedFile)
    requires
        0 <= i < files.len(),
        loading_ok(files, visited),
        lf.path == files[i].path,
        forall|j: int|
            0 <= j < lf.imports_resolved@.len() ==> exists|k: int|
                0 <= k < files.len() && spec_path_key(files[k].path@) == spec_path_key(
                    (#[trigger] lf.imports_resolved@[j]).1@,
                ),
    ensures
        loading_ok(files.update(i, lf), visited),
{
    let nf = files.update(i, lf);
    assert forall|k: int| 0 <= k < nf.len() implies (#[trigger] visited[k])@ == spec_path_key(nf[k].path@) by {
        assert(nf[k].path == files[k].path);
    }
    assert forall|a: int, b: int| 0 <= a < b < nf.len() implies spec_path_key((#[trigger] nf[a]).path@)
        != spec_path_key((#[trigger] nf[b]).path@) by {
        assert(nf[a].path == files[a].path);
        assert(nf[b].path == files[b].path);
    }
    assert forall|a: int, j: int|
        0 <= a < nf.len() && 0 <= j < nf[a].imports_resolved@.len() implies exists|k: int|
            0 <= k < nf.len() && spec_path_key(nf[k].path@) == spec_path_key(
                (#[trigger] nf[a].imports_resolved@[j]).1@,
            ) by {
        let k = if a == i {
            choose|k: int|
                0 <= k < files.len() && spec_path_key(files[k].path@) == spec_path_key(
                    (#[trigger] lf.imports_resolved@[j]).1@,
                )
        } else {
            choose|k: int|
                0 <= k < files.len() && spec_path_key(files[k].path@) == spec_path_key(
                    (#[trigger] files[a].imports_resolved@[j]).1@,
                )
        };
        assert(nf[k].path == files[k].path);
    }
}

/// The last recorded key.
fn key_of_last(keys: &Vec<String>) -> (r: String)
    requires
        keys@.len() > 0,
    ensures
        r@ == keys@.last()@,
{
    owned(keys[keys.len() - 1].as_str())
}

// ---------------------------------------------------------------------------
// Maps keyed by file
// ---------------------------------------------------------------------------

/// No two entries are for the same file.
pub open spec fn keys_distinct<T>(m: Seq<(String, T)>) -> bool {
    forall|a: int, b: int|
        0 <= a < b < m.len() ==> spec_path_key((#[trigger] m[a]).0@) != spec_path_key((#[trigger] m[b]).0@)
}

/// What [`path_map_insert`] makes of `old` when it records `v` at `path`.
pub open spec fn map_recorded<T>(old: Seq<(String, T)>, new: Seq<(String, T)>, path: Seq<char>, v: T) -> bool {
    &&& keys_distinct(new)
    &&& exists|j: int|
        0 <= j < new.len() && spec_path_key((#[trigger] new[j]).0@) == spec_path_key(path) && new[j].1 == v
    &&& forall|j: int|
        0 <= j < new.len() ==> (spec_path_key((#[trigger] new[j]).0@) == spec_path_key(path) && new[j].1 == v)
            || (spec_path_key(new[j].0@) != spec_path_key(path) && exists|k: int|
            0 <= k < old.len() && old[k] == new[j])
    &&& forall|k: int|
        0 <= k < old.len() && spec_path_key((#[trigger] old[k]).0@) != spec_path_key(path) ==> exists|j: int|
            0 <= j < new.len() && new[j] == old[k]
}

/// The entry for the file `path` names, if any.
pub fn path_map_find<T>(m: &Vec<(String, T)>, path: &str) -> (r: Option<usize>)
    ensures
        match r {
            Some(i) => i < m@.len() && spec_path_key(m@[i as int].0@) == spec_path_key(path@),
            None => forall|j: int| 0 <= j < m@.len() ==> spec_path_key((#[trigger] m@[j]).0@) != spec_path_key(path@),
        },
{
    let key = path_key(path);
    let mut i: usize = 0;
    while i < m.len()
        invariant
            i <= m@.len(),
            key@ == spec_path_key(path@),
            forall|j: int| 0 <= j < i ==> spec_path_key((#[trigger] m@[j]).0@) != key@,
        decreases m@.len() - i,
    {
        let k = path_key(m[i].0.as_str());
        if str_eq(k.as_str(), key.as_str()) {
            return Some(i);
        }
        i = i + 1;
    }
    None
}

fn replace_at<T>(m: &mut Vec<(String, T)>, i: usize, path: String, v: T)
    requires
        keys_distinct(old(m)@),
        i < old(m)@.len(),
        spec_path_key(old(m)@[i as int].0@) == spec_path_key(path@),
    ensures
        map_recorded(old(m)@, final(m)@, path@, v),
{
    let ghost o = m@;
    let e = (path, v);
    m.set(i, e);
    proof {
        assert(m@ == o.update(i as int, e));
        assert(m@[i as int] == e);
        assert forall|j: int| 0 <= j < m@.len() && j != i implies m@[j] == o[j] && spec_path_key(m@[j].0@) != spec_path_key(
            e.0@,
        ) by {
            if j < i {
                assert(spec_path_key(o[j].0@) != spec_path_key(o[i as int].0@));
            } else {
                assert(spec_path_key(o[i as int].0@) != spec_path_key(o[j].0@));
            }
        }
        assert forall|k: int| 0 <= k < o.len() && spec_path_key((#[trigger] o[k]).0@) != spec_path_key(e.0@) implies exists|j: int|
            0 <= j < m@.len() && m@[j] == o[k] by {
            assert(m@[k] == o[k]);
        }
    }
}

fn insert_new<T>(m: &mut Vec<(String, T)>, p: usize, path: String, v: T)
    requires
        keys_distinct(old(m)@),
        p <= old(m)@.len(),
        forall|j: int| 0 <= j < old(m)@.len() ==> spec_path_key((#[trigger] old(m)@[j]).0@) != spec_path_key(path@),
    ensures
        map_recorded(old(m)@, final(m)@, path@, v),
{
    let ghost o = m@;
    let e = (path, v);
    m.insert(p, e);
    proof {
        assert(m@ == o.insert(p as int, e));
        assert(m@[p as int] == e);
        assert forall|j: int| 0 <= j < m@.len() && j != p implies spec_path_key(m@[j].0@) != spec_path_key(e.0@) && exists|k: int|
            0 <= k < o.len() && o[k] == m@[j] by {
            if j < p {
                assert(m@[j] == o[j]);
            } else {
                assert(m@[j] == o[j - 1]);
            }
        }
        assert forall|k: int| 0 <= k < o.len() && spec_path_key((#[trigger] o[k]).0@) != spec_path_key(e.0@) implies exists|j: int|
            0 <= j < m@.len() && m@[j] == o[k] by {
            if k < p {
                assert(m@[k] == o[k]);
            } else {
                assert(m@[k + 1] == o[k]);
            }
        }
        assert forall|a: int, b: int| 0 <= a < b < m@.len() implies spec_path_key((#[trigger] m@[a]).0@)
            != spec_path_key((#[trigger] m@[b]).0@) by {
            if b < p {
            } else if b == p {
                assert(m@[a] == o[a]);
            } else if a < p {
                assert(m@[a] == o[a]);
                assert(m@[b] == o[b - 1]);
            } else if a == p {
                assert(m@[b] == o[b - 1]);
            } else {
                assert(m@[a] == o[a - 1]);
                assert(m@[b] == o[b - 1]);
            }
        }
    }
}

/// Record `v` for the file `path` names: that file's entry gets `v`; a new
/// file's entry goes before the first entry whose path sorts after it.
pub fn path_map_insert<T>(m: &mut Vec<(String, T)>, path: String, v: T)
    requires
        keys_distinct(old(m)@),
    ensures
        map_recorded(old(m)@, final(m)@, path@, v),
{
    match path_map_find(m, path.as_str()) {
        Some(i) => replace_at(m, i, path, v),
        None => {
            let mut p: usize = 0;
            while p < m.len() && !path_before(path.as_str(), m[p].0.as_str())
                invariant
                    p <= m@.len(),
                decreases m@.len() - p,
            {
                p = p + 1;
            }
            insert_new(m, p, path, v);
        },
    }
}

} // verus!
