//! Source ranges and the dependency records that carry them.

use vstd::prelude::*;

verus! {

/// A range in a source file, stored as base-0 byte offsets of its start and
/// end positions.
#[derive(Debug, Clone, Copy, PartialEq, Eq, Structural)]
pub struct DependencyRange {
    pub end: u32,
    pub start: u32,
}

impl DependencyRange {
    pub fn new(start: u32, end: u32) -> (r: DependencyRange)
        ensures
            r.start == start,
            r.end == end,
    {
        DependencyRange { end, start }
    }
}

impl From<(u32, u32)> for DependencyRange {
    fn from(range: (u32, u32)) -> (r: DependencyRange) {
        DependencyRange { start: range.0, end: range.1 }
    }
}

impl vstd::std_specs::convert::FromSpecImpl<(u32, u32)> for DependencyRange {
    open spec fn obeys_from_spec() -> bool {
        true
    }

    open spec fn from_spec(range: (u32, u32)) -> DependencyRange {
        DependencyRange { start: range.0, end: range.1 }
    }
}

/// The category a dependency falls under.
#[derive(Debug, Clone, Copy, PartialEq, Eq, Structural)]
pub enum DependencyCategory {
    CommonJS,
    Esm,
}

/// The kind of a dependency.
#[derive(Debug, Clone, Copy, PartialEq, Eq, Structural)]
pub enum DependencyType {
    CjsRequire,
    RscEntry,
    RscClientReference,
}

/// How a code-generation template is selected: by the dependency kind it
/// renders.
#[derive(Debug, Clone, Copy, PartialEq, Eq, Structural)]
pub enum DependencyTemplateType {
    Dependency(DependencyType),
}

/// One referenced export: a path of export names, with mangling and inlining
/// both ruled out here.
#[derive(Debug, Clone)]
pub struct ReferencedExport {
    pub name: Vec<String>,
    pub can_mangle: bool,
    pub can_inline: bool,
}

impl ReferencedExport {
    pub fn new(name: Vec<String>, can_mangle: bool, can_inline: bool) -> (r: ReferencedExport)
        ensures
            r.name@ == name@,
            r.can_mangle == can_mangle,
            r.can_inline == can_inline,
    {
        ReferencedExport { name, can_mangle, can_inline }
    }
}

/// A referenced-exports entry: a specific export path, or the whole exports
/// object.
#[derive(Debug, Clone)]
pub enum ExtendedReferencedExport {
    Object,
    Export(ReferencedExport),
}

/// The whole exports object is referenced.
pub fn create_exports_object_referenced() -> (r: Vec<ExtendedReferencedExport>)
    ensures
        r@.len() == 1,
        r@[0] is Object,
{
    let mut out: Vec<ExtendedReferencedExport> = Vec::new();
    out.push(ExtendedReferencedExport::Object);
    out
}

/// A CommonJS `require` call site: its request, the replaced ranges, its
/// source location, and the exports it references.
#[derive(Debug)]
pub struct CommonJsRequireDependency {
    pub request: String,
    pub optional: bool,
    pub range: DependencyRange,
    pub range_expr: Option<DependencyRange>,
    pub loc: Option<crate::location::DependencyLocation>,
    pub referenced_exports: Option<Vec<Vec<String>>>,
}

impl CommonJsRequireDependency {
    pub fn new(
        request: String,
        range: DependencyRange,
        range_expr: Option<DependencyRange>,
        optional: bool,
        loc: Option<crate::location::DependencyLocation>,
        referenced_exports: Option<Vec<Vec<String>>>,
    ) -> (r: CommonJsRequireDependency)
        ensures
            r.request == request,
            r.optional == optional,
            r.range == range,
            r.range_expr == range_expr,
            r.loc == loc,
            r.referenced_exports == referenced_exports,
    {
        CommonJsRequireDependency { request, optional, range, range_expr, loc, referenced_exports }
    }

    pub fn loc(&self) -> (r: Option<crate::location::DependencyLocation>)
        ensures
            r == self.loc,
    {
        self.loc
    }

    pub fn category(&self) -> (r: DependencyCategory)
        ensures
            r == DependencyCategory::CommonJS,
    {
        DependencyCategory::CommonJS
    }

    pub fn dependency_type(&self) -> (r: DependencyType)
        ensures
            r == DependencyType::CjsRequire,
    {
        DependencyType::CjsRequire
    }

    pub fn range(&self) -> (r: Option<DependencyRange>)
        ensures
            r == self.range_expr,
    {
        self.range_expr
    }

    pub fn request(&self) -> (r: &str)
        ensures
            r@ == self.request@,
    {
        self.request.as_str()
    }

    pub fn user_request(&self) -> (r: &str)
        ensures
            r@ == self.request@,
    {
        self.request.as_str()
    }

    pub fn get_optional(&self) -> (r: bool)
        ensures
            r == self.optional,
    {
        self.optional
    }

    /// The exports this require site references: each recorded export path,
    /// neither manglable nor inlinable, or the whole exports object when
    /// none were recorded.
    pub fn get_referenced_exports(&self) -> (r: Vec<ExtendedReferencedExport>)
        ensures
            match self.referenced_exports {
                Some(paths) => r@.len() == paths@.len() && forall|i: int|
                    0 <= i < r@.len() ==> ((#[trigger] r@[i]) matches ExtendedReferencedExport::Export(e)
                        && e.name@ == paths@[i]@ && !e.can_mangle && !e.can_inline),
                None => r@.len() == 1 && r@[0] is Object,
            },
    {
        match &self.referenced_exports {
            Some(paths) => {
                let mut out: Vec<ExtendedReferencedExport> = Vec::new();
                let mut i: usize = 0;
                while i < paths.len()
                    invariant
                        i <= paths@.len(),
                        out@.len() == i,
                        forall|j: int|
                            0 <= j < i ==> ((#[trigger] out@[j]) matches ExtendedReferencedExport::Export(e)
                                && e.name@ == paths@[j]@ && !e.can_mangle && !e.can_inline),
                    decreases paths@.len() - i,
                {
                    let mut name: Vec<String> = Vec::new();
                    let path = &paths[i];
                    let mut k: usize = 0;
                    while k < path.len()
                        invariant
                            k <= path@.len(),
                            name@ == path@.subrange(0, k as int),
                        decreases path@.len() - k,
                    {
                        name.push(path[k].clone());
                        proof {
                            assert(name@ =~= path@.subrange(0, k + 1 as int));
                        }
                        k += 1;
                    }
                    proof {
                        assert(name@ =~= path@);
                    }
                    out.push(
                        ExtendedReferencedExport::Export(ReferencedExport::new(name, false, false)),
                    );
                    i += 1;
                }
                out
            },
            None => create_exports_object_referenced(),
        }
    }
}

/// Renders a CommonJS require site by replacing its range with the resolved
/// module id.
#[derive(Debug, Clone)]
pub struct CommonJsRequireDependencyTemplate;

impl CommonJsRequireDependencyTemplate {
    /// The template renders dependencies of the CommonJS require kind.
    pub fn template_type() -> (r: DependencyTemplateType)
        ensures
            r == DependencyTemplateType::Dependency(DependencyType::CjsRequire),
    {
        DependencyTemplateType::Dependency(DependencyType::CjsRequire)
    }
}

} // verus!
