//! Entry modules and dependencies for server-component client references.
//!
//! An [`RscEntryModule`] is a synthetic entry module standing for a set of
//! client module imports; building it yields one [`ClientReferenceDependency`]
//! per import. The async build plumbing and code emission around these types
//! live outside this crate; here stand the data, the identifier derivations,
//! and the dependency bookkeeping, each with an exact contract.

use crate::dependency::{DependencyCategory, DependencyType};
use vstd::prelude::*;

verus! {

/// One client module import recorded for an entry: its request string and
/// the referenced export names.
#[derive(Debug, Clone)]
pub struct ClientModuleImport {
    pub request: String,
    pub ids: Vec<String>,
}

/// Relies on String::push_str: appends the characters of `t` to `s`.
#[verifier::external_body]
fn append_str(s: &mut String, t: &str)
    ensures
        final(s)@ == old(s)@ + t@,
{
    s.push_str(t)
}

/// The concatenation of two string slices.
fn concat_str(a: &str, b: &str) -> (r: String)
    ensures
        r@ == a@ + b@,
{
    let mut s = a.to_owned();
    append_str(&mut s, b);
    s
}

/// A snapshot of a string vector.
fn copy_strings(v: &Vec<String>) -> (r: Vec<String>)
    ensures
        r@ == v@,
{
    let mut out: Vec<String> = Vec::new();
    let mut i: usize = 0;
    while i < v.len()
        invariant
            i <= v@.len(),
            out@ == v@.subrange(0, i as int),
        decreases v@.len() - i,
    {
        out.push(v[i].clone());
        proof {
            assert(out@ =~= v@.subrange(0, i + 1 as int));
        }
        i += 1;
    }
    proof {
        assert(out@ =~= v@);
    }
    out
}

impl ClientModuleImport {
    /// A field-equal snapshot of this import.
    pub fn duplicate(&self) -> (r: ClientModuleImport)
        ensures
            r.request == self.request,
            r.ids@ == self.ids@,
    {
        ClientModuleImport { request: self.request.clone(), ids: copy_strings(&self.ids) }
    }
}

/// A snapshot of a client-import vector.
fn copy_imports(v: &Vec<ClientModuleImport>) -> (r: Vec<ClientModuleImport>)
    ensures
        r@.len() == v@.len(),
        forall|i: int|
            0 <= i < v@.len() ==> (#[trigger] r@[i]).request == v@[i].request && r@[i].ids@
                == v@[i].ids@,
{
    let mut out: Vec<ClientModuleImport> = Vec::new();
    let mut i: usize = 0;
    while i < v.len()
        invariant
            i <= v@.len(),
            out@.len() == i,
            forall|j: int|
                0 <= j < i ==> (#[trigger] out@[j]).request == v@[j].request && out@[j].ids@
                    == v@[j].ids@,
        decreases v@.len() - i,
    {
        out.push(v[i].duplicate());
        i += 1;
    }
    out
}

/// A dependency on one client reference, keyed by its request.
#[derive(Debug)]
pub struct ClientReferenceDependency {
    pub request: String,
    pub referenced_exports: Vec<String>,
    pub resource_identifier: String,
}

impl ClientReferenceDependency {
    pub fn new(request: String, referenced_exports: Vec<String>) -> (r: ClientReferenceDependency)
        ensures
            r.request == request,
            r.referenced_exports@ == referenced_exports@,
            r.resource_identifier@ == "rsc-client-reference="@ + request@,
    {
        let resource_identifier = concat_str("rsc-client-reference=", request.as_str());
        ClientReferenceDependency { request, referenced_exports, resource_identifier }
    }

    pub fn category(&self) -> (r: DependencyCategory)
        ensures
            r == DependencyCategory::Esm,
    {
        DependencyCategory::Esm
    }

    pub fn dependency_type(&self) -> (r: DependencyType)
        ensures
            r == DependencyType::RscClientReference,
    {
        DependencyType::RscClientReference
    }

    pub fn user_request(&self) -> (r: &str)
        ensures
            r@ == self.request@,
    {
        self.request.as_str()
    }

    /// The exports this reference uses: its recorded export names as one
    /// path, neither manglable nor inlinable.
    pub fn get_referenced_exports(&self) -> (r: Vec<crate::dependency::ExtendedReferencedExport>)
        ensures
            r@.len() == 1,
            (r@[0] matches crate::dependency::ExtendedReferencedExport::Export(e) && e.name@
                == self.referenced_exports@ && !e.can_mangle && !e.can_inline),
    {
        let mut out: Vec<crate::dependency::ExtendedReferencedExport> = Vec::new();
        out.push(
            crate::dependency::ExtendedReferencedExport::Export(
                crate::dependency::ReferencedExport::new(
                    copy_strings(&self.referenced_exports),
                    false,
                    false,
                ),
            ),
        );
        out
    }
}

/// The dependency that requests an RSC entry module, keyed by the entry
/// name.
#[derive(Debug)]
pub struct RscEntryDependency {
    pub name: String,
    pub client_modules: Vec<ClientModuleImport>,
    pub resource_identifier: String,
}

impl RscEntryDependency {
    pub fn new(name: String, client_modules: Vec<ClientModuleImport>) -> (r: RscEntryDependency)
        ensures
            r.name == name,
            r.client_modules@ == client_modules@,
            r.resource_identifier@ == "rsc-client-entry-"@ + name@,
    {
        let resource_identifier = concat_str("rsc-client-entry-", name.as_str());
        RscEntryDependency { name, client_modules, resource_identifier }
    }

    pub fn category(&self) -> (r: DependencyCategory)
        ensures
            r == DependencyCategory::Esm,
    {
        DependencyCategory::Esm
    }

    pub fn dependency_type(&self) -> (r: DependencyType)
        ensures
            r == DependencyType::RscEntry,
    {
        DependencyType::RscEntry
    }

    pub fn request(&self) -> (r: &str)
        ensures
            r@ == self.resource_identifier@,
    {
        self.resource_identifier.as_str()
    }
}

/// The requests of a list of imports, joined with a comma and a space.
pub open spec fn joined_requests(mods: Seq<ClientModuleImport>) -> Seq<char>
    decreases mods.len(),
{
    if mods.len() == 0 {
        Seq::empty()
    } else if mods.len() == 1 {
        mods[0].request@
    } else {
        joined_requests(mods.drop_last()) + ", "@ + mods.last().request@
    }
}

/// The identifier of an RSC entry module: the entry name and the joined
/// client requests.
pub open spec fn rsc_entry_identifier(name: Seq<char>, mods: Seq<ClientModuleImport>) -> Seq<
    char,
> {
    "rsc entry ("@ + name + ") ["@ + joined_requests(mods) + "]"@
}

/// A synthetic entry module standing for a set of client module imports.
#[derive(Debug)]
pub struct RscEntryModule {
    pub blocks: Vec<u64>,
    pub dependencies: Vec<u64>,
    pub identifier: String,
    pub lib_ident: String,
    pub client_modules: Vec<ClientModuleImport>,
    pub name: String,
}

impl RscEntryModule {
    pub fn new(name: String, client_modules: Vec<ClientModuleImport>) -> (r: RscEntryModule)
        ensures
            r.name == name,
            r.client_modules@ == client_modules@,
            r.blocks@ == Seq::<u64>::empty(),
            r.dependencies@ == Seq::<u64>::empty(),
            r.lib_ident@ == "rspack/rsc-entry?name="@ + name@,
            r.identifier@ == rsc_entry_identifier(name@, client_modules@),
    {
        let lib_ident = concat_str("rspack/rsc-entry?name=", name.as_str());
        let mut joined = String::new();
        let mut i: usize = 0;
        while i < client_modules.len()
            invariant
                i <= client_modules@.len(),
                joined@ == joined_requests(client_modules@.subrange(0, i as int)),
            decreases client_modules@.len() - i,
        {
            if i > 0 {
                append_str(&mut joined, ", ");
            }
            append_str(&mut joined, client_modules[i].request.as_str());
            proof {
                let pre = client_modules@.subrange(0, i as int);
                let cur = client_modules@.subrange(0, i + 1 as int);
                assert(cur.drop_last() =~= pre);
                assert(cur.last() == client_modules@[i as int]);
                if i == 0 {
                    assert(joined@ =~= joined_requests(cur));
                } else {
                    assert(joined@ =~= joined_requests(cur));
                }
            }
            i += 1;
        }
        proof {
            assert(client_modules@.subrange(0, client_modules@.len() as int) =~= client_modules@);
        }
        let mut identifier = concat_str("rsc entry (", name.as_str());
        append_str(&mut identifier, ") [");
        append_str(&mut identifier, joined.as_str());
        append_str(&mut identifier, "]");
        proof {
            assert(identifier@ =~= rsc_entry_identifier(name@, client_modules@));
        }
        RscEntryModule {
            blocks: Vec::new(),
            dependencies: Vec::new(),
            identifier,
            lib_ident,
            client_modules,
            name,
        }
    }

    /// The module's stable identifier.
    pub fn identifier(&self) -> (r: &str)
        ensures
            r@ == self.identifier@,
    {
        self.identifier.as_str()
    }

    pub fn lib_ident(&self) -> (r: &str)
        ensures
            r@ == self.lib_ident@,
    {
        self.lib_ident.as_str()
    }

    /// The human-readable identifier: the entry name under an `rsc client
    /// entry` prefix.
    pub fn readable_identifier(&self) -> (r: String)
        ensures
            r@ == "rsc client entry "@ + self.name@,
    {
        concat_str("rsc client entry ", self.name.as_str())
    }

    pub fn add_block_id(&mut self, block: u64)
        ensures
            final(self).blocks@ == old(self).blocks@.push(block),
            *final(self) == (RscEntryModule { blocks: final(self).blocks, ..*old(self) }),
    {
        self.blocks.push(block);
    }

    pub fn get_blocks(&self) -> (r: &Vec<u64>)
        ensures
            r@ == self.blocks@,
    {
        &self.blocks
    }

    pub fn add_dependency_id(&mut self, dependency: u64)
        ensures
            final(self).dependencies@ == old(self).dependencies@.push(dependency),
            *final(self) == (RscEntryModule { dependencies: final(self).dependencies, ..*old(self) }),
    {
        self.dependencies.push(dependency);
    }

    /// Drop every occurrence of `dependency`, keeping the others in order.
    pub fn remove_dependency_id(&mut self, dependency: u64)
        ensures
            final(self).dependencies@ == old(self).dependencies@.filter(
                |d: u64| d != dependency,
            ),
            *final(self) == (RscEntryModule { dependencies: final(self).dependencies, ..*old(self) }),
    {
        let mut kept: Vec<u64> = Vec::new();
        let mut i: usize = 0;
        proof {
            reveal(Seq::filter);
        }
        while i < self.dependencies.len()
            invariant
                i <= self.dependencies@.len(),
                kept@ == self.dependencies@.subrange(0, i as int).filter(
                    |d: u64| d != dependency,
                ),
            decreases self.dependencies@.len() - i,
        {
            let d = self.dependencies[i];
            if d != dependency {
                kept.push(d);
            }
            proof {
                reveal(Seq::filter);
                let pre = self.dependencies@.subrange(0, i as int);
                let cur = self.dependencies@.subrange(0, i + 1 as int);
                assert(cur.drop_last() =~= pre);
                assert(cur.last() == d);
            }
            i += 1;
        }
        proof {
            assert(self.dependencies@.subrange(0, self.dependencies@.len() as int)
                =~= self.dependencies@);
        }
        self.dependencies = kept;
    }

    pub fn get_dependencies(&self) -> (r: &Vec<u64>)
        ensures
            r@ == self.dependencies@,
    {
        &self.dependencies
    }

    /// The build step's computation: one client-reference dependency per
    /// recorded client module, in order.
    pub fn build(&self) -> (r: Vec<ClientReferenceDependency>)
        ensures
            r@.len() == self.client_modules@.len(),
            forall|i: int|
                0 <= i < r@.len() ==> (#[trigger] r@[i]).request == self.client_modules@[i].request
                    && r@[i].referenced_exports@ == self.client_modules@[i].ids@
                    && r@[i].resource_identifier@ == "rsc-client-reference="@
                    + self.client_modules@[i].request@,
    {
        let mut out: Vec<ClientReferenceDependency> = Vec::new();
        let mut i: usize = 0;
        while i < self.client_modules.len()
            invariant
                i <= self.client_modules@.len(),
                out@.len() == i,
                forall|j: int|
                    0 <= j < i ==> (#[trigger] out@[j]).request
                        == self.client_modules@[j].request && out@[j].referenced_exports@
                        == self.client_modules@[j].ids@ && out@[j].resource_identifier@
                        == "rsc-client-reference="@ + self.client_modules@[j].request@,
            decreases self.client_modules@.len() - i,
        {
            let cm = &self.client_modules[i];
            let dep = ClientReferenceDependency::new(cm.request.clone(), copy_strings(&cm.ids));
            out.push(dep);
            i += 1;
        }
        out
    }
}

/// Lines joined with a newline between them.
pub open spec fn joined_lines(lines: Seq<String>) -> Seq<char>
    decreases lines.len(),
{
    if lines.len() == 0 {
        Seq::empty()
    } else if lines.len() == 1 {
        lines[0]@
    } else {
        joined_lines(lines.drop_last()) + "\n"@ + lines.last()@
    }
}

/// The code-generation core of an RSC entry module: the comment lines the
/// client references produce, joined into one source text. Deriving the
/// comment for each reference shortens paths against the build context,
/// which happens outside this crate.
pub fn code_generation(comments: &Vec<String>) -> (r: String)
    ensures
        r@ == joined_lines(comments@),
{
    let mut source = String::new();
    let mut i: usize = 0;
    while i < comments.len()
        invariant
            i <= comments@.len(),
            source@ == joined_lines(comments@.subrange(0, i as int)),
        decreases comments@.len() - i,
    {
        if i > 0 {
            append_str(&mut source, "\n");
        }
        append_str(&mut source, comments[i].as_str());
        proof {
            let pre = comments@.subrange(0, i as int);
            let cur = comments@.subrange(0, i + 1 as int);
            assert(cur.drop_last() =~= pre);
            assert(cur.last() == comments@[i as int]);
            if i == 0 {
                assert(source@ =~= joined_lines(cur));
            } else {
                assert(source@ =~= joined_lines(cur));
            }
        }
        i += 1;
    }
    proof {
        assert(comments@.subrange(0, comments@.len() as int) =~= comments@);
    }
    source
}

/// The factory that turns an [`RscEntryDependency`] into its entry module.
#[derive(Debug)]
pub struct RscEntryModuleFactory;

impl RscEntryModuleFactory {
    /// Create the entry module named and populated by `dependency`.
    pub fn create(&self, dependency: &RscEntryDependency) -> (r: RscEntryModule)
        ensures
            r.name == dependency.name,
            r.client_modules@.len() == dependency.client_modules@.len(),
            forall|i: int|
                0 <= i < r.client_modules@.len() ==> (#[trigger] r.client_modules@[i]).request
                    == dependency.client_modules@[i].request && r.client_modules@[i].ids@
                    == dependency.client_modules@[i].ids@,
            r.lib_ident@ == "rspack/rsc-entry?name="@ + dependency.name@,
    {
        RscEntryModule::new(dependency.name.clone(), copy_imports(&dependency.client_modules))
    }
}

} // verus!
