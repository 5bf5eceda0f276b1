//! Import statements found in source code, collected per project.

use crate::specifier::{extract_package_name, package_name_of};
use crate::text::{find_text, lemma_lookup_sound, same_text, texts};
use vstd::prelude::*;
use vstd::string::*;

verus! {

/// The kind of an import statement.
#[derive(Debug, Clone, Copy, PartialEq, Eq, Structural)]
pub enum ImportKind {
    /// ES6 import statement
    EsModule,
    /// CommonJS require()
    CommonJs,
    /// Dynamic import()
    Dynamic,
    /// Re-export (export ... from ...)
    ReExport,
}

/// Represents an import statement found in source code
#[derive(Debug)]
pub struct Import {
    /// The source file containing the import
    pub file_path: String,
    /// Line number in the source file
    pub line: usize,
    /// The import specifier (e.g., "lodash", "./utils", "@scope/package")
    pub specifier: String,
    /// The kind of import
    pub kind: ImportKind,
    /// Resolved package name (for node_modules imports)
    pub resolved_package: Option<String>,
}

/// What an `Import` holds, as mathematical values.
pub struct ImportView {
    pub file_path: Seq<char>,
    pub line: usize,
    pub specifier: Seq<char>,
    pub kind: ImportKind,
    pub resolved_package: Option<Seq<char>>,
}

impl View for Import {
    type V = ImportView;

    open spec fn view(&self) -> ImportView {
        ImportView {
            file_path: self.file_path@,
            line: self.line,
            specifier: self.specifier@,
            kind: self.kind,
            resolved_package: match self.resolved_package {
                Some(p) => Some(p@),
                None => None,
            },
        }
    }
}

impl Clone for Import {
    fn clone(&self) -> (r: Self)
        ensures
            r@ == self@,
    {
        Import {
            file_path: self.file_path.clone(),
            line: self.line,
            specifier: self.specifier.clone(),
            kind: self.kind,
            resolved_package: match &self.resolved_package {
                Some(p) => Some(p.clone()),
                None => None,
            },
        }
    }
}

/// The import that a statement gives: for a specifier that names a package,
/// the import resolved to that package; for any other specifier, none.
pub fn resolve_import(file_path: &str, line: usize, specifier: &str, kind: ImportKind) -> (r:
    Option<Import>)
    ensures
        match package_name_of(specifier@) {
            Some(package) => r is Some && r->0@ == (ImportView {
                file_path: file_path@,
                line,
                specifier: specifier@,
                kind,
                resolved_package: Some(package),
            }),
            None => r is None,
        },
{
    match extract_package_name(specifier) {
        Some(package) => Some(
            Import {
                file_path: String::from_str(file_path),
                line,
                specifier: String::from_str(specifier),
                kind,
                resolved_package: Some(package),
            },
        ),
        None => None,
    }
}

/// The views of a list of imports.
pub open spec fn import_views(list: Seq<Import>) -> Seq<ImportView> {
    Seq::new(list.len(), |i: int| list[i]@)
}

/// The packages that the first `upto` imports resolve to, each once, in the
/// order in which they first occur.
pub open spec fn packages_seen(imports: Seq<ImportView>, upto: nat) -> Seq<Seq<char>>
    decreases upto,
{
    if upto == 0 {
        Seq::empty()
    } else {
        let before = packages_seen(imports, (upto - 1) as nat);
        match imports[upto - 1].resolved_package {
            Some(p) => if before.contains(p) {
                before
            } else {
                before.push(p)
            },
            None => before,
        }
    }
}

/// Those of the first `upto` imports that resolve to `package`, in order.
pub open spec fn usages_of(imports: Seq<ImportView>, package: Seq<char>, upto: nat) -> Seq<
    ImportView,
>
    decreases upto,
{
    if upto == 0 {
        Seq::empty()
    } else {
        let before = usages_of(imports, package, (upto - 1) as nat);
        if imports[upto - 1].resolved_package == Some(package) {
            before.push(imports[upto - 1])
        } else {
            before
        }
    }
}

/// Those of the first `upto` imports that stand in `file`, in order.
pub open spec fn imports_in(imports: Seq<ImportView>, file: Seq<char>, upto: nat) -> Seq<
    ImportView,
>
    decreases upto,
{
    if upto == 0 {
        Seq::empty()
    } else {
        let before = imports_in(imports, file, (upto - 1) as nat);
        if imports[upto - 1].file_path == file {
            before.push(imports[upto - 1])
        } else {
            before
        }
    }
}

/// Collection of all imports found in a project
#[derive(Debug)]
pub struct ImportMap {
    /// All imports, in the order in which they were added
    imports: Vec<Import>,
    /// Number of files analyzed
    files_count: usize,
}

impl ImportMap {
    /// The imports, in the order in which they were added.
    pub closed spec fn imports(&self) -> Seq<ImportView> {
        import_views(self.imports@)
    }

    /// Number of files marked as analyzed.
    pub closed spec fn files(&self) -> nat {
        self.files_count as nat
    }

    pub fn new() -> (r: Self)
        ensures
            r.imports() == Seq::<ImportView>::empty(),
            r.files() == 0,
    {
        let r = ImportMap { imports: Vec::new(), files_count: 0 };
        assert(r.imports() =~= Seq::<ImportView>::empty());
        r
    }

    pub fn add_import(&mut self, import: Import)
        ensures
            final(self).imports() == old(self).imports().push(import@),
            final(self).files() == old(self).files(),
    {
        let ghost before = self.imports();
        self.imports.push(import);
        assert(self.imports() =~= before.push(import@));
    }

    pub fn mark_file_analyzed(&mut self)
        requires
            old(self).files() < usize::MAX,
        ensures
            final(self).files() == old(self).files() + 1,
            final(self).imports() == old(self).imports(),
    {
        self.files_count += 1;
    }

    pub fn total_imports(&self) -> (r: usize)
        ensures
            r == self.imports().len(),
    {
        self.imports.len()
    }

    pub fn files_analyzed(&self) -> (r: usize)
        ensures
            r == self.files(),
    {
        self.files_count
    }

    /// The packages that the imports resolve to, each once, in the order in
    /// which they first occur.
    pub fn packages_used(&self) -> (r: Vec<String>)
        ensures
            texts(r@) == packages_seen(self.imports(), self.imports().len()),
    {
        let ghost all = self.imports();
        let mut names: Vec<String> = Vec::new();
        let mut i: usize = 0;
        while i < self.imports.len()
            invariant
                all == self.imports(),
                i <= self.imports@.len(),
                texts(names@) == packages_seen(all, i as nat),
            decreases self.imports@.len() - i,
        {
            let ghost before = texts(names@);
            match &self.imports[i].resolved_package {
                Some(p) => {
                    proof {
                        lemma_lookup_sound(before, p@);
                    }
                    match find_text(&names, p.as_str()) {
                        Some(at) => {
                            assert(before[at as int] == p@);
                        },
                        None => {
                            names.push(p.clone());
                            assert(texts(names@) =~= before.push(p@));
                        },
                    }
                },
                None => {},
            }
            i += 1;
        }
        names
    }

    /// The imports that resolve to `package`, in the order in which they
    /// were added; `None` where there is none.
    pub fn get_package_usages(&self, package: &str) -> (r: Option<Vec<Import>>)
        ensures
            match r {
                Some(list) => import_views(list@) == usages_of(
                    self.imports(),
                    package@,
                    self.imports().len(),
                ) && list@.len() > 0,
                None => usages_of(self.imports(), package@, self.imports().len()).len() == 0,
            },
    {
        let ghost all = self.imports();
        let mut found: Vec<Import> = Vec::new();
        let mut i: usize = 0;
        while i < self.imports.len()
            invariant
                all == self.imports(),
                i <= self.imports@.len(),
                import_views(found@) == usages_of(all, package@, i as nat),
            decreases self.imports@.len() - i,
        {
            let ghost before = import_views(found@);
            let item = &self.imports[i];
            let hit = match &item.resolved_package {
                Some(p) => same_text(p.as_str(), package),
                None => false,
            };
            if hit {
                found.push(item.clone());
                assert(import_views(found@) =~= before.push(item@));
            }
            i += 1;
        }
        if found.len() == 0 {
            None
        } else {
            Some(found)
        }
    }

    /// The imports that stand in `file`, in the order in which they were
    /// added.
    pub fn imports_by_file(&self, file: &str) -> (r: Vec<Import>)
        ensures
            import_views(r@) == imports_in(self.imports(), file@, self.imports().len()),
    {
        let ghost all = self.imports();
        let mut found: Vec<Import> = Vec::new();
        let mut i: usize = 0;
        while i < self.imports.len()
            invariant
                all == self.imports(),
                i <= self.imports@.len(),
                import_views(found@) == imports_in(all, file@, i as nat),
            decreases self.imports@.len() - i,
        {
            let ghost before = import_views(found@);
            let item = &self.imports[i];
            if same_text(item.file_path.as_str(), file) {
                found.push(item.clone());
                assert(import_views(found@) =~= before.push(item@));
            }
            i += 1;
        }
        found
    }
}

} // verus!
