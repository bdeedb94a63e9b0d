//! Packages: module paths of source files, qualification of top-level
//! names, span shifting, and the merged program with its source map.

use vstd::prelude::*;
use crate::ast::{
    path_name, Block, ConstExpr, ConstExprKind, EnumCtorArgs, EnumCtorArgsKind, EnumPatArgs,
    EnumPatArgsKind, Expr, ExprKind, Field, FieldExpr, FieldPat, GenericArg, GenericArgKind,
    EnumVariant, GenericParam, GenericParamKind, ImplMember, ImplMemberKind, InterfaceMember,
    InterfaceMemberKind, InterfaceRef, Item, Param,
    ItemKind, MatchArm, MethodSig, Pat, PatKind, Path, Program, ProgramKind, Stmt, StmtKind, Ty, TyKind,
    VariantPayload, VariantPayloadKind, WherePredicate, WherePredicateKind,
};
use crate::diagnostic::{severity_name, Diagnostic};
use crate::parser::parse_program;
use crate::span::{Node, SourceFile, Span};
use crate::text::{owned, push_str, push_string};

verus! {

/// The bundled standard library's `std::option` module.
pub const STDLIB_OPTION: &'static str = "enum Option<T> {\n    None,\n    Some(T),\n}\n";

/// The sources of the bundled standard library that a package loads before
/// its own: `std/option.tess` as module `std::option`, when the options
/// include the standard library, and none otherwise.
pub fn stdlib_sources(options: &PackageOptions) -> (r: Vec<SourceSpec>)
    ensures
        !options.include_stdlib ==> r@.len() == 0,
        options.include_stdlib ==> {
            &&& r@.len() == 1
            &&& r@[0].is_stdlib
            &&& r@[0].name@ == "std/option.tess"@
            &&& names_view(r@[0].module@) == seq![seq!['s', 't', 'd'], seq!['o', 'p', 't', 'i', 'o', 'n']]
            &&& r@[0].text matches Ok(t) && t@ == STDLIB_OPTION@
        },
{
    let mut sources: Vec<SourceSpec> = Vec::new();
    if options.include_stdlib {
        let mut module: Vec<String> = Vec::new();
        module.push(owned("std"));
        module.push(owned("option"));
        proof {
            reveal_strlit("std");
            reveal_strlit("option");
            assert(module@[0]@ =~= seq!['s', 't', 'd']);
            assert(module@[1]@ =~= seq!['o', 'p', 't', 'i', 'o', 'n']);
            assert(names_view(module@) =~= seq![seq!['s', 't', 'd'], seq!['o', 'p', 't', 'i', 'o', 'n']]);
        }
        sources.push(SourceSpec::stdlib("std/option.tess", module, owned(STDLIB_OPTION)));
    }
    sources
}

/// Whether source discovery passes over a directory of this name: hidden
/// directories and the build output directory `target`.
pub fn skips_directory(name: &str) -> (r: bool)
    ensures
        r == ((name@.len() > 0 && name@[0] == '.') || name@ == "target"@),
{
    if name.unicode_len() > 0 && name.get_char(0) == '.' {
        return true;
    }
    crate::text::str_eq(name, "target")
}

/// How a package is loaded.
#[derive(Clone, Copy, Debug)]
pub struct PackageOptions {
    /// Whether the bundled standard library is loaded before the user's
    /// sources.
    pub include_stdlib: bool,
}

impl Default for PackageOptions {
    /// The standard library is included.
    fn default() -> (r: PackageOptions)
        ensures
            r.include_stdlib,
    {
        PackageOptions { include_stdlib: true }
    }
}

/// A loaded package: the merged program, the map from its spans back to
/// the sources, and one module per source read.
#[derive(Debug)]
pub struct Package {
    pub program: Program,
    pub source_map: PackageSourceMap,
    pub modules: Vec<PackageModule>,
}

/// A module of a package: its path and the name of its source.
#[derive(Clone, Debug, PartialEq, Eq)]
pub struct PackageModule {
    pub name: Vec<String>,
    pub source_name: String,
}

/// The sources of a package with the offset each one starts at in the
/// merged span space.
#[derive(Clone, Debug)]
pub struct PackageSourceMap {
    sources: Vec<PackageSource>,
}

#[derive(Clone, Debug)]
struct PackageSource {
    name: String,
    text: String,
    base: usize,
    len: usize,
}

/// Why a package could not be loaded: its diagnostics, with the sources
/// read so far to render them.
#[derive(Clone, Debug)]
pub struct PackageLoadError {
    pub diagnostics: Vec<Diagnostic>,
    pub source_map: PackageSourceMap,
}

/// One source of a package as read: its display name, its module path, its
/// text or the reason it could not be read, and whether it belongs to the
/// standard library.
#[derive(Debug)]
pub struct SourceSpec {
    pub name: String,
    pub module: Vec<String>,
    pub text: Result<String, String>,
    pub is_stdlib: bool,
}

impl SourceSpec {
    /// A source file of the user's package.
    pub fn file(name: String, module: Vec<String>, text: Result<String, String>) -> (r: SourceSpec)
        ensures
            r.name == name,
            r.module == module,
            r.text == text,
            !r.is_stdlib,
    {
        SourceSpec { name, module, text, is_stdlib: false }
    }

    /// A source of the bundled standard library.
    pub fn stdlib(name: &str, module: Vec<String>, text: String) -> (r: SourceSpec)
        ensures
            r.name@ == name@,
            r.module == module,
            r.text == Ok::<String, String>(text),
            r.is_stdlib,
    {
        SourceSpec { name: owned(name), module, text: Ok(text), is_stdlib: true }
    }
}

/// The source a merged offset belongs to: the first whose range
/// `base ..= base + len` (saturating) holds it.
pub open spec fn source_holds(base: usize, len: usize, offset: usize) -> bool {
    offset >= base && offset <= sat_add(base, len)
}

/// Saturating addition of two offsets.
pub open spec fn sat_add(a: usize, b: usize) -> usize {
    if a + b > usize::MAX { usize::MAX } else { (a + b) as usize }
}

/// Saturating subtraction of two offsets.
pub open spec fn sat_sub(a: usize, b: usize) -> usize {
    if a < b { 0 } else { (a - b) as usize }
}

impl PackageSourceMap {
    /// A map with no sources.
    pub fn new() -> (r: PackageSourceMap)
        ensures
            r.sources_view().len() == 0,
    {
        PackageSourceMap { sources: Vec::new() }
    }

    /// The sources as (name, base, length) triples, in the order added.
    pub closed spec fn sources_view(&self) -> Seq<(Seq<char>, usize, usize)> {
        self.sources@.map_values(|s: PackageSource| (s.name@, s.base, s.len))
    }

    /// The text of the `i`th source.
    pub closed spec fn source_text(&self, i: int) -> Seq<char> {
        self.sources@[i].text@
    }

    /// Index of the first source that holds `offset`, if any.
    pub open spec fn source_index_for(&self, offset: usize) -> Option<int> {
        let v = self.sources_view();
        if exists|i: int| 0 <= i < v.len() && source_holds(v[i].1, v[i].2, offset) {
            let i = choose|i: int|
                0 <= i < v.len() && source_holds(v[i].1, v[i].2, offset)
                && forall|j: int| 0 <= j < i ==> !source_holds(v[j].1, v[j].2, offset);
            Some(i)
        } else {
            None
        }
    }

    fn add_source(&mut self, name: String, text: String, base: usize)
        ensures
            final(self).sources_view() == old(self).sources_view().push((name@, base, vstd::utf8::encode_utf8(text@).len() as usize)),
            forall|i: int| 0 <= i < old(self).sources_view().len() ==> final(self).source_text(i) == old(self).source_text(i),
            final(self).source_text(old(self).sources_view().len() as int) == text@,
    {
        let len = text.as_str().as_bytes().len();
        let ghost prior = self.sources@;
        let ghost name_v = name@;
        let ghost text_v = text@;
        self.sources.push(PackageSource { name, text, base, len });
        proof {
            assert(self.sources_view() =~= old(self).sources_view().push((name_v, base, len)));
        }
    }

    /// The first source whose range holds the start of the span.
    fn source_for_span(&self, span: Span) -> (r: Option<usize>)
        ensures
            r matches Some(i) ==> i < self.sources_view().len()
                && source_holds(self.sources_view()[i as int].1, self.sources_view()[i as int].2, span.start)
                && forall|j: int| 0 <= j < i ==> !source_holds(self.sources_view()[j].1, self.sources_view()[j].2, span.start),
            r is None ==> forall|j: int| 0 <= j < self.sources_view().len() ==> !source_holds(self.sources_view()[j].1, self.sources_view()[j].2, span.start),
    {
        let mut i: usize = 0;
        while i < self.sources.len()
            invariant
                0 <= i <= self.sources@.len(),
                forall|j: int| 0 <= j < i ==> !source_holds(self.sources_view()[j].1, self.sources_view()[j].2, span.start),
            decreases self.sources@.len() - i,
        {
            let source = &self.sources[i];
            if span.start >= source.base && span.start <= source.base.saturating_add(source.len) {
                return Some(i);
            }
            i = i + 1;
        }
        None
    }

    /// A diagnostic as one line: `Severity: name:line:col: message` when its
    /// start lies in a source, with the position local to that source, and
    /// `Severity: message` otherwise.
    pub fn render_diagnostic(&self, diagnostic: &Diagnostic) -> (r: String)
        ensures
            self.source_index_for(diagnostic.span.start) is None ==> r@ == severity_name(diagnostic.severity)
                + ": "@ + diagnostic.message@,
            self.source_index_for(diagnostic.span.start) matches Some(i) ==> {
                let v = self.sources_view();
                let local = sat_sub(diagnostic.span.start, v[i].1);
                &&& local < usize::MAX ==> crate::diagnostic::located(r@, diagnostic.severity, v[i].0,
                    vstd::utf8::encode_utf8(self.source_text(i)), local as int, diagnostic.message@)
                &&& local == usize::MAX ==> r@ == severity_name(diagnostic.severity) + ": "@ + diagnostic.message@
            },
    {
        proof {
            reveal_strlit(": ");
        }
        let mut out = owned(diagnostic.severity.name());
        push_str(&mut out, ": ");
        match self.source_for_span(diagnostic.span) {
            Some(i) => {
                let source = &self.sources[i];
                let local = Span::new(
                    diagnostic.span.start.saturating_sub(source.base),
                    diagnostic.span.end.saturating_sub(source.base),
                );
                if local.start < usize::MAX {
                    let file = SourceFile::new(source.name.as_str(), source.text.as_str());
                    let location = file.format_span(local);
                    push_string(&mut out, &location);
                    push_str(&mut out, ": ");
                    push_string(&mut out, &diagnostic.message);
                    proof {
                        file.lemma_starts_of_text();
                        let (line, col) = choose|line: usize, col: usize|
                            #![trigger crate::text::nat_decimal(line as nat), crate::text::nat_decimal(col as nat)]
                            {
                                &&& crate::span::is_line_of(file.starts(), local.start as int, line - 1)
                                &&& col == local.start - file.starts()[line - 1] + 1
                                &&& location@ == file.name_view() + seq![':'] + crate::text::nat_decimal(line as nat)
                                    + seq![':'] + crate::text::nat_decimal(col as nat)
                            };
                        assert(out@ =~= severity_name(diagnostic.severity) + ": "@ + source.name@ + seq![':']
                            + crate::text::nat_decimal(line as nat) + seq![':'] + crate::text::nat_decimal(col as nat)
                            + ": "@ + diagnostic.message@);
                        assert(self.source_index_for(diagnostic.span.start) == Some(i as int));
                    }
                    return out;
                }
            },
            None => {},
        }
        push_string(&mut out, &diagnostic.message);
        out
    }
}

// ---------------------------------------------------------------------
// Module paths and qualified names

/// The characters of each string.
pub open spec fn names_view(names: Seq<String>) -> Seq<Seq<char>> {
    names.map_values(|s: String| s@)
}

/// Whether one of the strings is `name`.
pub open spec fn name_in(names: Seq<String>, name: Seq<char>) -> bool {
    exists|k: int| 0 <= k < names.len() && names[k]@ == name
}

/// `.tess`
pub open spec fn tess_suffix() -> Seq<char> {
    seq!['.', 't', 'e', 's', 's']
}

/// A file name without its `.tess` suffix, when it has one.
pub open spec fn strip_tess(name: Seq<char>) -> Seq<char> {
    if name.len() >= 5 && name.subrange(name.len() - 5, name.len() as int) == tess_suffix() {
        name.subrange(0, name.len() - 5)
    } else {
        name
    }
}

/// Whether the component names a directory's own module (`main`, `lib`
/// or `mod`).
pub open spec fn is_module_root_name(name: Seq<char>) -> bool {
    name == seq!['m', 'a', 'i', 'n'] || name == seq!['l', 'i', 'b'] || name == seq!['m', 'o', 'd']
}

/// The module path of a source file from the components of its path
/// relative to the package source root: the file name loses `.tess`, and a
/// last component `main`, `lib` or `mod` is dropped.
pub open spec fn module_path_of(components: Seq<Seq<char>>) -> Seq<Seq<char>> {
    if components.len() == 0 {
        components
    } else {
        let c = components.update(components.len() - 1, strip_tess(components.last()));
        if is_module_root_name(c.last()) {
            c.drop_last()
        } else {
            c
        }
    }
}

/// The file name without its `.tess` suffix.
fn strip_tess_suffix(name: &String) -> (r: String)
    ensures
        r@ == strip_tess(name@),
{
    let s = name.as_str();
    let n = s.unicode_len();
    if n >= 5 && s.get_char(n - 5) == '.' && s.get_char(n - 4) == 't' && s.get_char(n - 3) == 'e'
        && s.get_char(n - 2) == 's' && s.get_char(n - 1) == 's' {
        proof {
            assert(name@.subrange(n - 5, n as int) =~= tess_suffix());
        }
        let mut out = String::new();
        let mut i: usize = 0;
        while i < n - 5
            invariant
                0 <= i <= n - 5,
                n == name@.len(),
                s@ == name@,
                out@ == name@.subrange(0, i as int),
            decreases n - 5 - i,
        {
            crate::text::push_char(&mut out, s.get_char(i));
            i = i + 1;
            proof {
                assert(out@ =~= name@.subrange(0, i as int));
            }
        }
        out
    } else {
        proof {
            if n >= 5 {
                let t = name@.subrange(n - 5, n as int);
                assert(t[0] == name@[n - 5]);
                assert(t != tess_suffix()) by {
                    if t == tess_suffix() {
                        assert(t[0] == '.' && t[1] == 't' && t[2] == 'e' && t[3] == 's' && t[4] == 's');
                    }
                }
            }
        }
        name.clone()
    }
}

/// The module path of a source file from the components of its path
/// relative to the package source root.
pub fn module_path_for_components(components: &Vec<String>) -> (r: Vec<String>)
    ensures
        names_view(r@) == module_path_of(names_view(components@)),
{
    let mut out: Vec<String> = Vec::new();
    let n = components.len();
    if n == 0 {
        proof {
            assert(names_view(out@) =~= module_path_of(names_view(components@)));
        }
        return out;
    }
    let mut i: usize = 0;
    while i + 1 < n
        invariant
            0 <= i <= n - 1,
            n == components@.len(),
            out@ == components@.take(i as int),
        decreases n - i,
    {
        out.push(components[i].clone());
        i = i + 1;
        proof {
            assert(out@ =~= components@.take(i as int));
        }
    }
    let last = strip_tess_suffix(&components[n - 1]);
    let root = crate::text::str_eq(last.as_str(), "main") || crate::text::str_eq(last.as_str(), "lib")
        || crate::text::str_eq(last.as_str(), "mod");
    proof {
        reveal_strlit("main");
        reveal_strlit("lib");
        reveal_strlit("mod");
        assert("main"@ =~= seq!['m', 'a', 'i', 'n']);
        assert("lib"@ =~= seq!['l', 'i', 'b']);
        assert("mod"@ =~= seq!['m', 'o', 'd']);
    }
    let ghost c = names_view(components@).update(n - 1, strip_tess(names_view(components@).last()));
    proof {
        assert(names_view(out@) =~= c.drop_last());
    }
    if !root {
        let ghost before = out@;
        out.push(last);
        proof {
            assert(out@ =~= before.push(last));
            assert(names_view(out@) =~= c);
        }
    }
    out
}

/// The segments of a module path followed by a name.
fn qualified_segments(module: &Vec<String>, name: &str) -> (r: Vec<String>)
    ensures
        names_view(r@) == names_view(module@).push(name@),
{
    let mut segments: Vec<String> = Vec::new();
    let mut i: usize = 0;
    while i < module.len()
        invariant
            0 <= i <= module@.len(),
            segments@ == module@.take(i as int),
        decreases module@.len() - i,
    {
        segments.push(module[i].clone());
        i = i + 1;
        proof {
            assert(segments@ =~= module@.take(i as int));
        }
    }
    proof {
        assert(segments@ =~= module@);
    }
    let tail = owned(name);
    segments.push(tail);
    proof {
        assert(segments@ =~= module@.push(tail));
        assert(names_view(segments@) =~= names_view(module@).push(name@));
    }
    segments
}

/// A name qualified by a module path, joined with `::`.
fn qualify_name(module: &Vec<String>, name: &str) -> (r: String)
    ensures
        r@ == crate::ast::join_segments(names_view(module@).push(name@)),
{
    let segments = qualified_segments(module, name);
    let path = Node::new(Span::zero(), crate::ast::PathKind { segments });
    path_name(&path)
}

/// Whether the path starts with the (nonempty) module path.
fn module_path_has_prefix(path: &Path, module: &Vec<String>) -> (r: bool)
    ensures
        r == (module@.len() > 0 && path.kind.segments@.len() >= module@.len()
            && forall|k: int| 0 <= k < module@.len() ==> path.kind.segments@[k]@ == module@[k]@),
{
    if module.len() == 0 || path.kind.segments.len() < module.len() {
        return false;
    }
    let mut i: usize = 0;
    while i < module.len()
        invariant
            0 <= i <= module@.len(),
            path.kind.segments@.len() >= module@.len(),
            forall|k: int| 0 <= k < i ==> path.kind.segments@[k]@ == module@[k]@,
        decreases module@.len() - i,
    {
        if !crate::text::str_eq(path.kind.segments[i].as_str(), module[i].as_str()) {
            return false;
        }
        i = i + 1;
    }
    true
}

/// `start` and `end` moved by `base`, saturating.
pub fn shift_span(span: Span, base: usize) -> (r: Span)
    ensures
        r.start == sat_add(span.start, base),
        r.end == sat_add(span.end, base),
{
    Span::new(span.start.saturating_add(base), span.end.saturating_add(base))
}

/// Moves every diagnostic's span by `base`.
fn shift_diagnostics(diagnostics: &mut Vec<Diagnostic>, base: usize)
    ensures
        final(diagnostics)@.len() == old(diagnostics)@.len(),
        forall|k: int| 0 <= k < old(diagnostics)@.len() ==> {
            let d = #[trigger] final(diagnostics)@[k];
            let o = old(diagnostics)@[k];
            d.span == shift_span_spec(o.span, base) && d.severity == o.severity && d.message == o.message
        },
{
    let mut i: usize = 0;
    while i < diagnostics.len()
        invariant
            0 <= i <= diagnostics@.len(),
            diagnostics@.len() == old(diagnostics)@.len(),
            forall|k: int| 0 <= k < i ==> {
                let d = #[trigger] diagnostics@[k];
                let o = old(diagnostics)@[k];
                d.span == shift_span_spec(o.span, base) && d.severity == o.severity && d.message == o.message
            },
            forall|k: int| i <= k < diagnostics@.len() ==> diagnostics@[k] == old(diagnostics)@[k],
        decreases diagnostics@.len() - i,
    {
        let mut d = diagnostics.remove(i);
        d.span = shift_span(d.span, base);
        diagnostics.insert(i, d);
        i = i + 1;
    }
}

/// A span moved by `base`, saturating.
pub open spec fn shift_span_spec(span: Span, base: usize) -> Span {
    Span { start: sat_add(span.start, base), end: sat_add(span.end, base) }
}

// ---------------------------------------------------------------------
// Names declared and imported by a source file

/// The top-level names a source file declares, and its `use` items: each
/// imported leaf name with the full path it stands for, and each root of
/// an imported path.
struct LocalNames {
    types: Vec<String>,
    interfaces: Vec<String>,
    consts: Vec<String>,
    fns: Vec<String>,
    imports: Vec<(String, Vec<String>)>,
    import_roots: Vec<String>,
}

/// The path that the leaf name `name` was imported as, if any.
pub open spec fn import_of(imports: Seq<(String, Vec<String>)>, name: Seq<char>) -> Option<Seq<String>> {
    if exists|k: int| 0 <= k < imports.len() && imports[k].0@ == name {
        let k = choose|k: int| 0 <= k < imports.len() && imports[k].0@ == name;
        Some(imports[k].1@)
    } else {
        None
    }
}

/// Whether no two entries have the same name.
pub open spec fn keys_unique(imports: Seq<(String, Vec<String>)>) -> bool {
    forall|i: int, j: int| 0 <= i < j < imports.len() ==> imports[i].0@ != imports[j].0@
}

/// Adds `name` to a set of names.
fn add_name(names: &mut Vec<String>, name: &String)
    ensures
        forall|n: Seq<char>| name_in(final(names)@, n) <==> (name_in(old(names)@, n) || n == name@),
{
    if !contains(names, name.as_str()) {
        names.push(name.clone());
        proof {
            assert forall|n: Seq<char>| name_in(names@, n) <==> (name_in(old(names)@, n) || n == name@) by {
                if name_in(old(names)@, n) {
                    let k = choose|k: int| 0 <= k < old(names)@.len() && old(names)@[k]@ == n;
                    assert(names@[k] == old(names)@[k]);
                }
                if n == name@ {
                    assert(names@[old(names)@.len() as int]@ == n);
                }
            }
        }
    }
}

/// Whether one of the names is `name`.
fn contains(names: &Vec<String>, name: &str) -> (r: bool)
    ensures
        r == name_in(names@, name@),
{
    let mut i: usize = 0;
    while i < names.len()
        invariant
            0 <= i <= names@.len(),
            forall|k: int| 0 <= k < i ==> names@[k]@ != name@,
        decreases names@.len() - i,
    {
        if crate::text::str_eq(names[i].as_str(), name) {
            return true;
        }
        i = i + 1;
    }
    false
}

impl LocalNames {
    /// Whether `name` is a struct or enum declared here.
    spec fn has_type(&self, name: Seq<char>) -> bool {
        name_in(self.types@, name)
    }

    spec fn has_interface(&self, name: Seq<char>) -> bool {
        name_in(self.interfaces@, name)
    }

    spec fn has_const(&self, name: Seq<char>) -> bool {
        name_in(self.consts@, name)
    }

    spec fn has_import_root(&self, name: Seq<char>) -> bool {
        name_in(self.import_roots@, name)
    }

    spec fn import(&self, name: Seq<char>) -> Option<Seq<String>> {
        import_of(self.imports@, name)
    }

    spec fn wf(&self) -> bool {
        keys_unique(self.imports@)
    }

    /// The names declared and imported by the items of one source file; a
    /// later `use` of the same leaf name replaces an earlier one.
    fn new(items: &Vec<Item>) -> (r: LocalNames)
        ensures
            r.wf(),
            forall|n: Seq<char>| name_in(r.types@, n) <==> exists|k: int| 0 <= k < items@.len() && #[trigger] declares(DeclKind::Type, items@[k], n),
            forall|n: Seq<char>| name_in(r.interfaces@, n) <==> exists|k: int| 0 <= k < items@.len() && #[trigger] declares(DeclKind::Interface, items@[k], n),
            forall|n: Seq<char>| name_in(r.consts@, n) <==> exists|k: int| 0 <= k < items@.len() && #[trigger] declares(DeclKind::Const, items@[k], n),
            forall|n: Seq<char>| name_in(r.fns@, n) <==> exists|k: int| 0 <= k < items@.len() && #[trigger] declares(DeclKind::Fn, items@[k], n),
    {
        let mut locals = LocalNames {
            types: Vec::new(),
            interfaces: Vec::new(),
            consts: Vec::new(),
            fns: Vec::new(),
            imports: Vec::new(),
            import_roots: Vec::new(),
        };
        let mut i: usize = 0;
        while i < items.len()
            invariant
                0 <= i <= items@.len(),
                locals.wf(),
                forall|n: Seq<char>| name_in(locals.types@, n) <==> exists|k: int| 0 <= k < i && #[trigger] declares(DeclKind::Type, items@[k], n),
                forall|n: Seq<char>| name_in(locals.interfaces@, n) <==> exists|k: int| 0 <= k < i && #[trigger] declares(DeclKind::Interface, items@[k], n),
                forall|n: Seq<char>| name_in(locals.consts@, n) <==> exists|k: int| 0 <= k < i && #[trigger] declares(DeclKind::Const, items@[k], n),
                forall|n: Seq<char>| name_in(locals.fns@, n) <==> exists|k: int| 0 <= k < i && #[trigger] declares(DeclKind::Fn, items@[k], n),
            decreases items@.len() - i,
        {
            let ghost prev = locals;
            match &items[i].kind {
                ItemKind::Use(item) => {
                    let segments = &item.kind.path.kind.segments;
                    if segments.len() > 0 {
                        add_name(&mut locals.import_roots, &segments[0]);
                        let alias = &segments[segments.len() - 1];
                        insert_import(&mut locals.imports, alias, segments.clone());
                    }
                },
                ItemKind::Const(item) => add_name(&mut locals.consts, &item.kind.name),
                ItemKind::Struct(item) => add_name(&mut locals.types, &item.kind.name),
                ItemKind::Enum(item) => add_name(&mut locals.types, &item.kind.name),
                ItemKind::Interface(item) => add_name(&mut locals.interfaces, &item.kind.name),
                ItemKind::Impl(_) => {},
                ItemKind::Fn(item) => add_name(&mut locals.fns, &item.kind.name),
            }
            proof {
                lemma_extend_declared(items@, i as int, prev.types@, locals.types@, DeclKind::Type);
                lemma_extend_declared(items@, i as int, prev.interfaces@, locals.interfaces@, DeclKind::Interface);
                lemma_extend_declared(items@, i as int, prev.consts@, locals.consts@, DeclKind::Const);
                lemma_extend_declared(items@, i as int, prev.fns@, locals.fns@, DeclKind::Fn);
            }
            i = i + 1;
        }
        locals
    }

    /// The path the leaf name was imported as.
    fn import_get(&self, name: &str) -> (r: Option<&Vec<String>>)
        requires
            self.wf(),
        ensures
            r matches Some(p) ==> self.import(name@) == Some(p@),
            r is None ==> self.import(name@) is None,
    {
        let mut i: usize = 0;
        while i < self.imports.len()
            invariant
                0 <= i <= self.imports@.len(),
                self.wf(),
                forall|k: int| 0 <= k < i ==> self.imports@[k].0@ != name@,
            decreases self.imports@.len() - i,
        {
            if crate::text::str_eq(self.imports[i].0.as_str(), name) {
                proof {
                    let k = choose|k: int| 0 <= k < self.imports@.len() && self.imports@[k].0@ == name@;
                    assert(k == i as int);
                }
                return Some(&self.imports[i].1);
            }
            i = i + 1;
        }
        None
    }
}

/// Binds the leaf name to a path, replacing an earlier binding.
fn insert_import(imports: &mut Vec<(String, Vec<String>)>, name: &String, path: Vec<String>)
    requires
        keys_unique(old(imports)@),
    ensures
        keys_unique(final(imports)@),
        import_of(final(imports)@, name@) == Some(path@),
{
    let mut i: usize = 0;
    while i < imports.len()
        invariant
            0 <= i <= imports@.len(),
            imports@ == old(imports)@,
            keys_unique(old(imports)@),
            forall|k: int| 0 <= k < i ==> imports@[k].0@ != name@,
        decreases imports@.len() - i,
    {
        if crate::text::str_eq(imports[i].0.as_str(), name.as_str()) {
            let ghost p = path@;
            let key = name.clone();
            imports.set(i, (key, path));
            proof {
                assert(imports@[i as int].0@ == name@);
                assert forall|a: int, b: int| 0 <= a < b < imports@.len() implies imports@[a].0@ != imports@[b].0@ by {
                    if a != i as int && b != i as int {
                        assert(imports@[a] == old(imports)@[a]);
                        assert(imports@[b] == old(imports)@[b]);
                    } else if a == i as int {
                        assert(imports@[b] == old(imports)@[b]);
                    } else {
                        assert(imports@[a] == old(imports)@[a]);
                    }
                }
                let k = choose|k: int| 0 <= k < imports@.len() && imports@[k].0@ == name@;
                assert(k == i as int);
            }
            return;
        }
        i = i + 1;
    }
    let key = name.clone();
    imports.push((key, path));
    proof {
        let last = imports@.len() - 1;
        assert(imports@[last].0@ == name@);
        assert forall|a: int, b: int| 0 <= a < b < imports@.len() implies imports@[a].0@ != imports@[b].0@ by {
            if b == last {
                assert(imports@[a] == old(imports)@[a]);
            } else {
                assert(imports@[a] == old(imports)@[a]);
                assert(imports@[b] == old(imports)@[b]);
            }
        }
        let k = choose|k: int| 0 <= k < imports@.len() && imports@[k].0@ == name@;
        assert(k == last);
    }
}

/// The kinds of top-level names a source file declares.
pub enum DeclKind {
    Type,
    Interface,
    Const,
    Fn,
}

/// Whether the item declares `name` as a name of that kind: structs and
/// enums are types.
pub open spec fn declares(kind: DeclKind, item: Item, name: Seq<char>) -> bool {
    match (kind, item.kind) {
        (DeclKind::Type, ItemKind::Struct(s)) => s.kind.name@ == name,
        (DeclKind::Type, ItemKind::Enum(e)) => e.kind.name@ == name,
        (DeclKind::Interface, ItemKind::Interface(i)) => i.kind.name@ == name,
        (DeclKind::Const, ItemKind::Const(c)) => c.kind.name@ == name,
        (DeclKind::Fn, ItemKind::Fn(f)) => f.kind.name@ == name,
        _ => false,
    }
}

/// One more item scanned: a name set that held the names declared by the
/// first `i` items and now also holds what item `i` declares holds the
/// names declared by the first `i + 1`.
proof fn lemma_extend_declared(items: Seq<Item>, i: int, before: Seq<String>, after: Seq<String>, kind: DeclKind)
    requires
        0 <= i < items.len(),
        forall|n: Seq<char>| name_in(before, n) <==> exists|k: int| 0 <= k < i && #[trigger] declares(kind, items[k], n),
        forall|n: Seq<char>| name_in(after, n) <==> (name_in(before, n) || declares(kind, items[i], n)),
    ensures
        forall|n: Seq<char>| name_in(after, n) <==> exists|k: int| 0 <= k < i + 1 && #[trigger] declares(kind, items[k], n),
{
    assert forall|n: Seq<char>| name_in(after, n) <==> exists|k: int| 0 <= k < i + 1 && #[trigger] declares(kind, items[k], n) by {
        if exists|k: int| 0 <= k < i + 1 && #[trigger] declares(kind, items[k], n) {
            let k = choose|k: int| 0 <= k < i + 1 && #[trigger] declares(kind, items[k], n);
            if k < i {
                assert(name_in(before, n));
            }
        }
        if name_in(before, n) {
            let k = choose|k: int| 0 <= k < i && #[trigger] declares(kind, items[k], n);
            assert(0 <= k < i + 1 && declares(kind, items[k], n));
        }
        if declares(kind, items[i], n) {
            assert(0 <= i < i + 1 && declares(kind, items[i], n));
        }
    }
}

/// The generic parameter names in scope while an item is qualified.
struct ScopeNames {
    type_params: Vec<String>,
    const_params: Vec<String>,
}

/// Whether the generic parameter is a type parameter named `n`.
spec fn type_param_is(g: GenericParam, n: Seq<char>) -> bool {
    g.kind matches GenericParamKind::Type { name, .. } && name@ == n
}

/// Whether the generic parameter is a constant parameter named `n`.
spec fn const_param_is(g: GenericParam, n: Seq<char>) -> bool {
    g.kind matches GenericParamKind::Const { name, .. } && name@ == n
}

/// Whether one of the generic parameters is a type parameter named `n`.
spec fn declares_type_param(generics: Seq<GenericParam>, n: Seq<char>) -> bool {
    exists|j: int| 0 <= j < generics.len() && type_param_is(#[trigger] generics[j], n)
}

/// Whether one of the generic parameters is a constant parameter named `n`.
spec fn declares_const_param(generics: Seq<GenericParam>, n: Seq<char>) -> bool {
    exists|j: int| 0 <= j < generics.len() && const_param_is(#[trigger] generics[j], n)
}

/// Whether `inner` holds the generic names of `scope` and those `generics`
/// declare, and no others.
spec fn scope_extends(inner: ScopeNames, scope: ScopeNames, generics: Seq<GenericParam>) -> bool {
    &&& forall|n: Seq<char>| #[trigger] name_in(inner.type_params@, n) <==> (name_in(scope.type_params@, n) || declares_type_param(generics, n))
    &&& forall|n: Seq<char>| #[trigger] name_in(inner.const_params@, n) <==> (name_in(scope.const_params@, n) || declares_const_param(generics, n))
}

impl ScopeNames {
    fn empty() -> (r: ScopeNames)
        ensures
            r.type_params@.len() == 0,
            r.const_params@.len() == 0,
    {
        ScopeNames { type_params: Vec::new(), const_params: Vec::new() }
    }

    /// The scope with the names of `generics` added.
    fn with_generics(&self, generics: &Vec<GenericParam>) -> (r: ScopeNames)
        ensures
            forall|n: Seq<char>| name_in(self.type_params@, n) ==> name_in(r.type_params@, n),
            forall|n: Seq<char>| name_in(self.const_params@, n) ==> name_in(r.const_params@, n),
            scope_extends(r, *self, generics@),
    {
        let type_params = self.type_params.clone();
        let const_params = self.const_params.clone();
        proof {
            assert(type_params@ =~= self.type_params@);
            assert(const_params@ =~= self.const_params@);
        }
        let mut scope = ScopeNames { type_params, const_params };
        let mut i: usize = 0;
        while i < generics.len()
            invariant
                0 <= i <= generics@.len(),
                scope_extends(scope, *self, generics@.take(i as int)),
            decreases generics@.len() - i,
        {
            let ghost before = scope;
            match &generics[i].kind {
                GenericParamKind::Type { name, .. } => add_name(&mut scope.type_params, name),
                GenericParamKind::Const { name, .. } => add_name(&mut scope.const_params, name),
            }
            proof {
                let g = generics@.take(i as int + 1);
                assert(g =~= generics@.take(i as int).push(generics@[i as int]));
                assert forall|n: Seq<char>| declares_type_param(g, n)
                    <==> (declares_type_param(generics@.take(i as int), n)
                        || type_param_is(generics@[i as int], n)) by {
                    if declares_type_param(g, n) {
                        let j = choose|j: int| 0 <= j < g.len() && type_param_is(#[trigger] g[j], n);
                        if j < i {
                            assert(generics@.take(i as int)[j] == g[j]);
                        }
                    }
                    if declares_type_param(generics@.take(i as int), n) {
                        let j = choose|j: int| 0 <= j < i && type_param_is(#[trigger] generics@.take(i as int)[j], n);
                        assert(g[j] == generics@.take(i as int)[j]);
                    }
                    assert(g[i as int] == generics@[i as int]);
                }
                assert forall|n: Seq<char>| declares_const_param(g, n)
                    <==> (declares_const_param(generics@.take(i as int), n)
                        || const_param_is(generics@[i as int], n)) by {
                    if declares_const_param(g, n) {
                        let j = choose|j: int| 0 <= j < g.len() && const_param_is(#[trigger] g[j], n);
                        if j < i {
                            assert(generics@.take(i as int)[j] == g[j]);
                        }
                    }
                    if declares_const_param(generics@.take(i as int), n) {
                        let j = choose|j: int| 0 <= j < i && const_param_is(#[trigger] generics@.take(i as int)[j], n);
                        assert(g[j] == generics@.take(i as int)[j]);
                    }
                    assert(g[i as int] == generics@[i as int]);
                }
            }
            i = i + 1;
        }
        proof {
            assert(generics@.take(generics@.len() as int) =~= generics@);
        }
        scope
    }
}

// ---------------------------------------------------------------------
// Resolving single paths

/// The error for a qualified path whose root module was not imported.
pub open spec fn dependency_message(path_text: Seq<char>, root: Seq<char>) -> Seq<char> {
    "path `"@ + path_text + "` requires an explicit `use "@ + root + ";` dependency"@
}

/// Whether a qualified path needs a `use` of its root that is missing: it is
/// not inside the current module and its root was not imported.
spec fn needs_dependency(path: Path, module: Seq<String>, locals: LocalNames) -> bool {
    &&& !(module.len() > 0 && path.kind.segments@.len() >= module.len()
        && forall|k: int| 0 <= k < module.len() ==> path.kind.segments@[k]@ == module[k]@)
    &&& path.kind.segments@.len() > 0
    &&& !locals.has_import_root(path.kind.segments@[0]@)
}

/// Reports a qualified path that reaches into a module this file did not
/// `use`.
fn require_explicit_dependency(path: &Path, module: &Vec<String>, locals: &LocalNames, diagnostics: &mut Vec<Diagnostic>)
    ensures
        needs_dependency(*path, module@, *locals) ==> {
            &&& final(diagnostics)@.len() == old(diagnostics)@.len() + 1
            &&& final(diagnostics)@.drop_last() == old(diagnostics)@
            &&& final(diagnostics)@.last().severity == crate::diagnostic::DiagnosticSeverity::Error
            &&& final(diagnostics)@.last().span == path.span
            &&& final(diagnostics)@.last().message@ == dependency_message(
                crate::ast::join_segments(path.kind.segment_views()), path.kind.segments@[0]@)
        },
        !needs_dependency(*path, module@, *locals) ==> final(diagnostics)@ == old(diagnostics)@,
{
    proof {
        reveal_strlit("path `");
        reveal_strlit("` requires an explicit `use ");
        reveal_strlit(";` dependency");
    }
    if module_path_has_prefix(path, module) {
        return;
    }
    if path.kind.segments.len() == 0 {
        return;
    }
    let root = &path.kind.segments[0];
    if contains(&locals.import_roots, root.as_str()) {
        return;
    }
    let mut message = owned("path `");
    let name = path_name(path);
    push_string(&mut message, &name);
    push_str(&mut message, "` requires an explicit `use ");
    push_string(&mut message, root);
    push_str(&mut message, ";` dependency");
    diagnostics.push(Diagnostic::error(path.span, message));
    proof {
        assert(diagnostics@.drop_last() =~= old(diagnostics)@);
    }
}

/// The diagnostics after a dependency check of `path`: one error appended
/// when the path needs a `use` that is missing, none otherwise.
spec fn dependency_checked(before: Seq<Diagnostic>, after: Seq<Diagnostic>, path: Path, module: Seq<String>, locals: LocalNames) -> bool {
    if needs_dependency(path, module, locals) {
        &&& after.len() == before.len() + 1
        &&& after.drop_last() == before
        &&& after.last().severity == crate::diagnostic::DiagnosticSeverity::Error
        &&& after.last().span == path.span
        &&& after.last().message@ == dependency_message(
            crate::ast::join_segments(path.kind.segment_views()), path.kind.segments@[0]@)
    } else {
        after == before
    }
}

/// A copy of a list of names.
fn clone_names(names: &Vec<String>) -> (r: Vec<String>)
    ensures
        r@ == names@,
{
    let mut out: Vec<String> = Vec::new();
    let mut i: usize = 0;
    while i < names.len()
        invariant
            0 <= i <= names@.len(),
            out@ == names@.take(i as int),
        decreases names@.len() - i,
    {
        out.push(names[i].clone());
        i = i + 1;
        proof {
            assert(out@ =~= names@.take(i as int));
        }
    }
    proof {
        assert(out@ =~= names@);
    }
    out
}

/// What a one-segment path naming a type becomes: a type parameter in
/// scope stays, a type or interface of this file is qualified by the
/// module, an imported name becomes the path it was imported as; `None`
/// leaves the path as written.
spec fn type_path_target(name: Seq<char>, module: Seq<String>, locals: LocalNames, scope: ScopeNames) -> Option<Seq<Seq<char>>> {
    if name_in(scope.type_params@, name) {
        None
    } else if locals.has_type(name) || locals.has_interface(name) {
        Some(names_view(module).push(name))
    } else if locals.import(name) is Some {
        Some(names_view(locals.import(name)->0))
    } else {
        None
    }
}

/// What a one-segment path naming an interface becomes.
spec fn interface_path_target(name: Seq<char>, module: Seq<String>, locals: LocalNames) -> Option<Seq<Seq<char>>> {
    if locals.has_interface(name) {
        Some(names_view(module).push(name))
    } else if locals.import(name) is Some {
        Some(names_view(locals.import(name)->0))
    } else {
        None
    }
}

/// What a one-segment path naming a constant becomes: a const parameter in
/// scope stays.
spec fn const_path_target(name: Seq<char>, module: Seq<String>, locals: LocalNames, scope: ScopeNames) -> Option<Seq<Seq<char>>> {
    if name_in(scope.const_params@, name) {
        None
    } else if locals.has_const(name) {
        Some(names_view(module).push(name))
    } else if locals.import(name) is Some {
        Some(names_view(locals.import(name)->0))
    } else {
        None
    }
}

/// The segments of a path after resolution to `target`.
spec fn retargeted(old_segments: Seq<String>, target: Option<Seq<Seq<char>>>) -> Seq<Seq<char>> {
    match target {
        Some(t) => t,
        None => names_view(old_segments),
    }
}

/// The message for a constructor path `name::...` whose root was not
/// imported.
pub open spec fn ctor_dependency_message(name: Seq<char>) -> Seq<char> {
    "path `"@ + name + "::...` requires an explicit `use "@ + name + ";` dependency"@
}

/// Whether a diagnostic is one that qualification reports: an error that a
/// path needs an explicit `use` of its root.
pub open spec fn dependency_error(d: Diagnostic) -> bool {
    &&& d.severity == crate::diagnostic::DiagnosticSeverity::Error
    &&& (exists|p: Seq<char>, root: Seq<char>| d.message@ == #[trigger] dependency_message(p, root))
        || (exists|root: Seq<char>| d.message@ == #[trigger] ctor_dependency_message(root))
}

/// Whether `after` is `before` followed by dependency errors only.
pub open spec fn dependency_errors_added(before: Seq<Diagnostic>, after: Seq<Diagnostic>) -> bool {
    &&& before.len() <= after.len()
    &&& forall|k: int| 0 <= k < before.len() ==> #[trigger] after[k] == before[k]
    &&& forall|k: int| before.len() <= k < after.len() ==> dependency_error(#[trigger] after[k])
}

/// Whether `n` is `o` with its name qualified: the span is kept, a path of
/// one segment is retargeted to `target` (kept where there is none), a
/// longer path is kept.
spec fn path_qualified(o: Path, n: Path, target: Option<Seq<Seq<char>>>) -> bool {
    &&& n.span == o.span
    &&& o.kind.segments@.len() != 1 ==> n.kind.segments@ == o.kind.segments@
    &&& o.kind.segments@.len() == 1 ==> names_view(n.kind.segments@) == retargeted(o.kind.segments@, target)
}

/// Whether `n` is the type `o` with every path inside it qualified in the
/// module, with the file's names and the generic names in scope.
spec fn ty_qualified(o: Ty, n: Ty, module: Seq<String>, locals: LocalNames, scope: ScopeNames) -> bool
    decreases o, 0nat,
{
    n.span == o.span && match (o.kind, n.kind) {
        (TyKind::Unit, TyKind::Unit) | (TyKind::Bool, TyKind::Bool) | (TyKind::Never, TyKind::Never)
        | (TyKind::SelfTy, TyKind::SelfTy) => true,
        (TyKind::Int(a), TyKind::Int(b)) => a == b,
        (TyKind::Path { path: op, args: oa }, TyKind::Path { path: np, args: na }) =>
            path_qualified(op, np, if op.kind.segments@.len() == 1 {
                type_path_target(op.kind.segments@[0]@, module, locals, scope)
            } else {
                None
            }) && args_qualified(oa@, na@, module, locals, scope),
        (TyKind::Array { elem: oe, len: ol }, TyKind::Array { elem: ne, len: nl }) =>
            ty_qualified(*oe, *ne, module, locals, scope) && const_qualified(ol, nl, module, locals, scope),
        (TyKind::Ref { mutability: om, ty: ot }, TyKind::Ref { mutability: nm, ty: nt }) =>
            om == nm && ty_qualified(*ot, *nt, module, locals, scope),
        (TyKind::Fn { params: op, ret: orr }, TyKind::Fn { params: np, ret: nr }) =>
            tys_qualified(op@, np@, module, locals, scope) && ty_qualified(*orr, *nr, module, locals, scope),
        _ => false,
    }
}

/// Whether each type of `n` is the one of `o` qualified.
spec fn tys_qualified(o: Seq<Ty>, n: Seq<Ty>, module: Seq<String>, locals: LocalNames, scope: ScopeNames) -> bool
    decreases o, 0nat,
{
    if o.len() != n.len() {
        false
    } else if o.len() == 0 {
        true
    } else {
        tys_qualified(o.subrange(0, o.len() - 1), n.subrange(0, n.len() - 1), module, locals, scope)
            && ty_qualified(o[o.len() - 1], n[n.len() - 1], module, locals, scope)
    }
}

/// Whether each generic argument of `n` is the one of `o` qualified.
spec fn args_qualified(o: Seq<GenericArg>, n: Seq<GenericArg>, module: Seq<String>, locals: LocalNames, scope: ScopeNames) -> bool
    decreases o, 0nat,
{
    if o.len() != n.len() {
        false
    } else if o.len() == 0 {
        true
    } else {
        args_qualified(o.subrange(0, o.len() - 1), n.subrange(0, n.len() - 1), module, locals, scope)
            && arg_qualified(o[o.len() - 1], n[n.len() - 1], module, locals, scope)
    }
}

/// Whether the generic argument `n` is `o` qualified.
spec fn arg_qualified(o: GenericArg, n: GenericArg, module: Seq<String>, locals: LocalNames, scope: ScopeNames) -> bool
    decreases o, 0nat,
{
    n.span == o.span && match (o.kind, n.kind) {
        (GenericArgKind::Ty(a), GenericArgKind::Ty(b)) => ty_qualified(a, b, module, locals, scope),
        (GenericArgKind::Const(a), GenericArgKind::Const(b)) => const_qualified(a, b, module, locals, scope),
        _ => false,
    }
}

/// Whether the constant expression `n` is `o` with the constants and types
/// it names qualified.
spec fn const_qualified(o: ConstExpr, n: ConstExpr, module: Seq<String>, locals: LocalNames, scope: ScopeNames) -> bool
    decreases o, 0nat,
{
    n.span == o.span && match (o.kind, n.kind) {
        (ConstExprKind::IntLit(a), ConstExprKind::IntLit(b)) => a == b,
        (ConstExprKind::Param(a), ConstExprKind::Param(b)) => a == b,
        (ConstExprKind::Path(a), ConstExprKind::Path(b)) => path_qualified(a, b, if a.kind.segments@.len() == 1 {
                const_path_target(a.kind.segments@[0]@, module, locals, scope)
            } else {
                None
            }),
        (ConstExprKind::AssocConst { ty: ot, interface: oi, name: on }, ConstExprKind::AssocConst { ty: nt, interface: ni, name: nn }) =>
            ty_qualified(*ot, *nt, module, locals, scope) && on == nn
                && path_qualified(oi, ni, if oi.kind.segments@.len() == 1 {
                    interface_path_target(oi.kind.segments@[0]@, module, locals)
                } else {
                    None
                }),
        (ConstExprKind::Unary { op: oo, expr: oe }, ConstExprKind::Unary { op: no, expr: ne }) =>
            oo == no && const_qualified(*oe, *ne, module, locals, scope),
        (ConstExprKind::Binary { op: oo, lhs: ol, rhs: orr }, ConstExprKind::Binary { op: no, lhs: nl, rhs: nr }) =>
            oo == no && const_qualified(*ol, *nl, module, locals, scope) && const_qualified(*orr, *nr, module, locals, scope),
        (ConstExprKind::Cast { expr: oe, ty: ot }, ConstExprKind::Cast { expr: ne, ty: nt }) =>
            ot == nt && const_qualified(*oe, *ne, module, locals, scope),
        _ => false,
    }
}

/// Whether the interface reference `n` is `o` qualified.
spec fn interface_ref_qualified(o: InterfaceRef, n: InterfaceRef, module: Seq<String>, locals: LocalNames, scope: ScopeNames) -> bool {
    &&& n.span == o.span
    &&& path_qualified(o.kind.path, n.kind.path, if o.kind.path.kind.segments@.len() == 1 {
        interface_path_target(o.kind.path.kind.segments@[0]@, module, locals)
    } else {
        None
    })
    &&& args_qualified(o.kind.args@, n.kind.args@, module, locals, scope)
}

/// The name a called function's name becomes: a function of this file
/// gets the module prefix, an imported one its full path; other names are
/// kept.
spec fn call_name_target(name: Seq<char>, module: Seq<String>, locals: LocalNames) -> Seq<char> {
    if name_in(locals.fns@, name) {
        crate::ast::join_segments(names_view(module).push(name))
    } else if locals.import(name) is Some {
        crate::ast::join_segments(names_view(locals.import(name)->0))
    } else {
        name
    }
}

/// The target a one-segment path in type position is retargeted to.
spec fn type_target_of(p: Path, module: Seq<String>, locals: LocalNames, scope: ScopeNames) -> Option<Seq<Seq<char>>> {
    if p.kind.segments@.len() == 1 {
        type_path_target(p.kind.segments@[0]@, module, locals, scope)
    } else {
        None
    }
}

/// Whether the expression `n` is `o` with the functions, structs, enums,
/// types and constants it names qualified.
spec fn expr_qualified(o: Expr, n: Expr, module: Seq<String>, locals: LocalNames, scope: ScopeNames) -> bool
    decreases o, 0nat,
{
    n.span == o.span && match (o.kind, n.kind) {
        (ExprKind::UnitLit, ExprKind::UnitLit) | (ExprKind::Todo, ExprKind::Todo) => true,
        (ExprKind::BoolLit(a), ExprKind::BoolLit(b)) => a == b,
        (ExprKind::IntLit(a), ExprKind::IntLit(b)) => a == b,
        (ExprKind::Var(a), ExprKind::Var(b)) => a == b,
        (ExprKind::Unary { op: oo, expr: oe }, ExprKind::Unary { op: no, expr: ne }) =>
            oo == no && expr_qualified(*oe, *ne, module, locals, scope),
        (ExprKind::Binary { op: oo, lhs: ol, rhs: orr }, ExprKind::Binary { op: no, lhs: nl, rhs: nr }) =>
            oo == no && expr_qualified(*ol, *nl, module, locals, scope) && expr_qualified(*orr, *nr, module, locals, scope),
        (ExprKind::Assign { lhs: ol, rhs: orr }, ExprKind::Assign { lhs: nl, rhs: nr }) =>
            expr_qualified(*ol, *nl, module, locals, scope) && expr_qualified(*orr, *nr, module, locals, scope),
        (ExprKind::Call { callee: oc, args: oa }, ExprKind::Call { callee: nc, args: na }) =>
            (match oc.kind {
                ExprKind::Var(on) => nc.span == oc.span
                    && (nc.kind matches ExprKind::Var(nn) && nn@ == call_name_target(on@, module, locals)),
                _ => expr_qualified(*oc, *nc, module, locals, scope),
            }) && exprs_qualified(oa@, na@, module, locals, scope),
        (ExprKind::MethodCall { receiver: orc, method: om, args: oa }, ExprKind::MethodCall { receiver: nrc, method: nm, args: na }) =>
            om == nm && expr_qualified(*orc, *nrc, module, locals, scope) && exprs_qualified(oa@, na@, module, locals, scope),
        (ExprKind::StructLit { path: op, fields: of }, ExprKind::StructLit { path: np, fields: nf }) =>
            path_qualified(op, np, type_target_of(op, module, locals, scope)) && field_exprs_qualified(of@, nf@, module, locals, scope),
        (ExprKind::EnumCtor { enum_path: op, variant: ov, args: oa }, ExprKind::EnumCtor { enum_path: np, variant: nv, args: na }) =>
            ov == nv && path_qualified(op, np, type_target_of(op, module, locals, scope)) && ctor_args_qualified(oa, na, module, locals, scope),
        (ExprKind::Field { base: ob, name: on }, ExprKind::Field { base: nb, name: nn }) =>
            on == nn && expr_qualified(*ob, *nb, module, locals, scope),
        (ExprKind::Index { base: ob, index: oi }, ExprKind::Index { base: nb, index: ni }) =>
            expr_qualified(*ob, *nb, module, locals, scope) && expr_qualified(*oi, *ni, module, locals, scope),
        (ExprKind::Match { scrutinee: os, arms: oa }, ExprKind::Match { scrutinee: ns, arms: na }) =>
            expr_qualified(*os, *ns, module, locals, scope) && arms_qualified(oa@, na@, module, locals, scope),
        (ExprKind::If { cond: oc, then_branch: ot, else_branch: oe }, ExprKind::If { cond: nc, then_branch: nt, else_branch: ne }) =>
            expr_qualified(*oc, *nc, module, locals, scope) && block_qualified(ot, nt, module, locals, scope) && match (oe, ne) {
                (Some(a), Some(b)) => block_qualified(a, b, module, locals, scope),
                (None, None) => true,
                _ => false,
            },
        (ExprKind::Block(a), ExprKind::Block(b)) => block_qualified(a, b, module, locals, scope),
        (ExprKind::Return(a), ExprKind::Return(b)) => match (a, b) {
            (Some(x), Some(y)) => expr_qualified(*x, *y, module, locals, scope),
            (None, None) => true,
            _ => false,
        },
        _ => false,
    }
}

/// Whether the block `n` is `o` qualified.
spec fn block_qualified(o: Block, n: Block, module: Seq<String>, locals: LocalNames, scope: ScopeNames) -> bool
    decreases o, 0nat,
{
    n.span == o.span && stmts_qualified(o.kind.stmts@, n.kind.stmts@, module, locals, scope) && match (o.kind.tail, n.kind.tail) {
        (Some(a), Some(b)) => expr_qualified(*a, *b, module, locals, scope),
        (None, None) => true,
        _ => false,
    }
}

/// Whether the statement `n` is `o` qualified.
spec fn stmt_qualified(o: Stmt, n: Stmt, module: Seq<String>, locals: LocalNames, scope: ScopeNames) -> bool
    decreases o, 0nat,
{
    n.span == o.span && match (o.kind, n.kind) {
        (StmtKind::Let(a), StmtKind::Let(b)) => b.span == a.span && b.kind.name == a.kind.name
            && match (a.kind.ty, b.kind.ty) {
                (Some(x), Some(y)) => ty_qualified(x, y, module, locals, scope),
                (None, None) => true,
                _ => false,
            } && match (a.kind.init, b.kind.init) {
                (Some(x), Some(y)) => expr_qualified(x, y, module, locals, scope),
                (None, None) => true,
                _ => false,
            },
        (StmtKind::Expr(a), StmtKind::Expr(b)) => expr_qualified(a, b, module, locals, scope),
        (StmtKind::Semi(a), StmtKind::Semi(b)) => expr_qualified(a, b, module, locals, scope),
        _ => false,
    }
}

/// Whether the match arm `n` is `o` qualified.
spec fn arm_qualified(o: MatchArm, n: MatchArm, module: Seq<String>, locals: LocalNames, scope: ScopeNames) -> bool
    decreases o, 0nat,
{
    n.span == o.span && pat_qualified(o.kind.pat, n.kind.pat, module, locals, scope) && expr_qualified(o.kind.body, n.kind.body, module, locals, scope)
}

/// Whether the field initializer `n` is `o` qualified.
spec fn field_expr_qualified(o: FieldExpr, n: FieldExpr, module: Seq<String>, locals: LocalNames, scope: ScopeNames) -> bool
    decreases o, 0nat,
{
    n.span == o.span && n.kind.name == o.kind.name && expr_qualified(o.kind.expr, n.kind.expr, module, locals, scope)
}

/// Whether the constructor arguments `n` are `o` qualified.
spec fn ctor_args_qualified(o: EnumCtorArgs, n: EnumCtorArgs, module: Seq<String>, locals: LocalNames, scope: ScopeNames) -> bool
    decreases o, 0nat,
{
    n.span == o.span && match (o.kind, n.kind) {
        (EnumCtorArgsKind::Unit, EnumCtorArgsKind::Unit) => true,
        (EnumCtorArgsKind::Tuple(a), EnumCtorArgsKind::Tuple(b)) => exprs_qualified(a@, b@, module, locals, scope),
        (EnumCtorArgsKind::Struct(a), EnumCtorArgsKind::Struct(b)) => field_exprs_qualified(a@, b@, module, locals, scope),
        _ => false,
    }
}

/// Whether the pattern `n` is `o` with the enums and structs it names
/// qualified.
spec fn pat_qualified(o: Pat, n: Pat, module: Seq<String>, locals: LocalNames, scope: ScopeNames) -> bool
    decreases o, 0nat,
{
    n.span == o.span && match (o.kind, n.kind) {
        (PatKind::Wildcard, PatKind::Wildcard) | (PatKind::Unit, PatKind::Unit) => true,
        (PatKind::Binding { name: a }, PatKind::Binding { name: b }) => a == b,
        (PatKind::BoolLit(a), PatKind::BoolLit(b)) => a == b,
        (PatKind::IntLit(a), PatKind::IntLit(b)) => a == b,
        (PatKind::EnumVariant { enum_path: op, variant: ov, args: oa }, PatKind::EnumVariant { enum_path: np, variant: nv, args: na }) =>
            ov == nv && path_qualified(op, np, type_target_of(op, module, locals, scope)) && pat_args_qualified(oa, na, module, locals, scope),
        (PatKind::Struct { path: op, fields: of }, PatKind::Struct { path: np, fields: nf }) =>
            path_qualified(op, np, type_target_of(op, module, locals, scope)) && field_pats_qualified(of@, nf@, module, locals, scope),
        _ => false,
    }
}

/// Whether the variant pattern arguments `n` are `o` qualified.
spec fn pat_args_qualified(o: EnumPatArgs, n: EnumPatArgs, module: Seq<String>, locals: LocalNames, scope: ScopeNames) -> bool
    decreases o, 0nat,
{
    n.span == o.span && match (o.kind, n.kind) {
        (EnumPatArgsKind::Unit, EnumPatArgsKind::Unit) => true,
        (EnumPatArgsKind::Tuple(a), EnumPatArgsKind::Tuple(b)) => pats_qualified(a@, b@, module, locals, scope),
        (EnumPatArgsKind::Struct(a), EnumPatArgsKind::Struct(b)) => field_pats_qualified(a@, b@, module, locals, scope),
        _ => false,
    }
}

/// Whether the field pattern `n` is `o` qualified.
spec fn field_pat_qualified(o: FieldPat, n: FieldPat, module: Seq<String>, locals: LocalNames, scope: ScopeNames) -> bool
    decreases o, 0nat,
{
    n.span == o.span && n.kind.name == o.kind.name && pat_qualified(o.kind.pat, n.kind.pat, module, locals, scope)
}

/// Whether each expression of `n` is the one of `o` qualified.
spec fn exprs_qualified(o: Seq<Expr>, n: Seq<Expr>, module: Seq<String>, locals: LocalNames, scope: ScopeNames) -> bool
    decreases o, 0nat,
{
    if o.len() != n.len() {
        false
    } else if o.len() == 0 {
        true
    } else {
        exprs_qualified(o.subrange(0, o.len() - 1), n.subrange(0, n.len() - 1), module, locals, scope)
            && expr_qualified(o[o.len() - 1], n[n.len() - 1], module, locals, scope)
    }
}

proof fn lemma_exprs_qualified_push(o: Seq<Expr>, n: Seq<Expr>, a: Expr, b: Expr, module: Seq<String>, locals: LocalNames, scope: ScopeNames)
    requires
        exprs_qualified(o, n, module, locals, scope),
        expr_qualified(a, b, module, locals, scope),
    ensures
        exprs_qualified(o.push(a), n.push(b), module, locals, scope),
{
    assert(o.push(a).subrange(0, o.len() as int) =~= o);
    assert(n.push(b).subrange(0, n.len() as int) =~= n);
}

/// Whether each statement of `n` is the one of `o` qualified.
spec fn stmts_qualified(o: Seq<Stmt>, n: Seq<Stmt>, module: Seq<String>, locals: LocalNames, scope: ScopeNames) -> bool
    decreases o, 0nat,
{
    if o.len() != n.len() {
        false
    } else if o.len() == 0 {
        true
    } else {
        stmts_qualified(o.subrange(0, o.len() - 1), n.subrange(0, n.len() - 1), module, locals, scope)
            && stmt_qualified(o[o.len() - 1], n[n.len() - 1], module, locals, scope)
    }
}

proof fn lemma_stmts_qualified_push(o: Seq<Stmt>, n: Seq<Stmt>, a: Stmt, b: Stmt, module: Seq<String>, locals: LocalNames, scope: ScopeNames)
    requires
        stmts_qualified(o, n, module, locals, scope),
        stmt_qualified(a, b, module, locals, scope),
    ensures
        stmts_qualified(o.push(a), n.push(b), module, locals, scope),
{
    assert(o.push(a).subrange(0, o.len() as int) =~= o);
    assert(n.push(b).subrange(0, n.len() as int) =~= n);
}

/// Whether each match arm of `n` is the one of `o` qualified.
spec fn arms_qualified(o: Seq<MatchArm>, n: Seq<MatchArm>, module: Seq<String>, locals: LocalNames, scope: ScopeNames) -> bool
    decreases o, 0nat,
{
    if o.len() != n.len() {
        false
    } else if o.len() == 0 {
        true
    } else {
        arms_qualified(o.subrange(0, o.len() - 1), n.subrange(0, n.len() - 1), module, locals, scope)
            && arm_qualified(o[o.len() - 1], n[n.len() - 1], module, locals, scope)
    }
}

proof fn lemma_arms_qualified_push(o: Seq<MatchArm>, n: Seq<MatchArm>, a: MatchArm, b: MatchArm, module: Seq<String>, locals: LocalNames, scope: ScopeNames)
    requires
        arms_qualified(o, n, module, locals, scope),
        arm_qualified(a, b, module, locals, scope),
    ensures
        arms_qualified(o.push(a), n.push(b), module, locals, scope),
{
    assert(o.push(a).subrange(0, o.len() as int) =~= o);
    assert(n.push(b).subrange(0, n.len() as int) =~= n);
}

/// Whether each field initializer of `n` is the one of `o` qualified.
spec fn field_exprs_qualified(o: Seq<FieldExpr>, n: Seq<FieldExpr>, module: Seq<String>, locals: LocalNames, scope: ScopeNames) -> bool
    decreases o, 0nat,
{
    if o.len() != n.len() {
        false
    } else if o.len() == 0 {
        true
    } else {
        field_exprs_qualified(o.subrange(0, o.len() - 1), n.subrange(0, n.len() - 1), module, locals, scope)
            && field_expr_qualified(o[o.len() - 1], n[n.len() - 1], module, locals, scope)
    }
}

proof fn lemma_field_exprs_qualified_push(o: Seq<FieldExpr>, n: Seq<FieldExpr>, a: FieldExpr, b: FieldExpr, module: Seq<String>, locals: LocalNames, scope: ScopeNames)
    requires
        field_exprs_qualified(o, n, module, locals, scope),
        field_expr_qualified(a, b, module, locals, scope),
    ensures
        field_exprs_qualified(o.push(a), n.push(b), module, locals, scope),
{
    assert(o.push(a).subrange(0, o.len() as int) =~= o);
    assert(n.push(b).subrange(0, n.len() as int) =~= n);
}

/// Whether each pattern of `n` is the one of `o` qualified.
spec fn pats_qualified(o: Seq<Pat>, n: Seq<Pat>, module: Seq<String>, locals: LocalNames, scope: ScopeNames) -> bool
    decreases o, 0nat,
{
    if o.len() != n.len() {
        false
    } else if o.len() == 0 {
        true
    } else {
        pats_qualified(o.subrange(0, o.len() - 1), n.subrange(0, n.len() - 1), module, locals, scope)
            && pat_qualified(o[o.len() - 1], n[n.len() - 1], module, locals, scope)
    }
}

proof fn lemma_pats_qualified_push(o: Seq<Pat>, n: Seq<Pat>, a: Pat, b: Pat, module: Seq<String>, locals: LocalNames, scope: ScopeNames)
    requires
        pats_qualified(o, n, module, locals, scope),
        pat_qualified(a, b, module, locals, scope),
    ensures
        pats_qualified(o.push(a), n.push(b), module, locals, scope),
{
    assert(o.push(a).subrange(0, o.len() as int) =~= o);
    assert(n.push(b).subrange(0, n.len() as int) =~= n);
}

/// Whether each field pattern of `n` is the one of `o` qualified.
spec fn field_pats_qualified(o: Seq<FieldPat>, n: Seq<FieldPat>, module: Seq<String>, locals: LocalNames, scope: ScopeNames) -> bool
    decreases o, 0nat,
{
    if o.len() != n.len() {
        false
    } else if o.len() == 0 {
        true
    } else {
        field_pats_qualified(o.subrange(0, o.len() - 1), n.subrange(0, n.len() - 1), module, locals, scope)
            && field_pat_qualified(o[o.len() - 1], n[n.len() - 1], module, locals, scope)
    }
}

proof fn lemma_field_pats_qualified_push(o: Seq<FieldPat>, n: Seq<FieldPat>, a: FieldPat, b: FieldPat, module: Seq<String>, locals: LocalNames, scope: ScopeNames)
    requires
        field_pats_qualified(o, n, module, locals, scope),
        field_pat_qualified(a, b, module, locals, scope),
    ensures
        field_pats_qualified(o.push(a), n.push(b), module, locals, scope),
{
    assert(o.push(a).subrange(0, o.len() as int) =~= o);
    assert(n.push(b).subrange(0, n.len() as int) =~= n);
}

/// Whether the `where` predicate `n` is `o` qualified.
spec fn where_predicate_qualified(o: WherePredicate, n: WherePredicate, module: Seq<String>, locals: LocalNames, scope: ScopeNames) -> bool {
    n.span == o.span && match (o.kind, n.kind) {
        (WherePredicateKind::Implements { ty: ot, interface: oi }, WherePredicateKind::Implements { ty: nt, interface: ni }) =>
            ty_qualified(ot, nt, module, locals, scope) && interface_ref_qualified(oi, ni, module, locals, scope),
        (WherePredicateKind::ConstEq { lhs: ol, rhs: orr }, WherePredicateKind::ConstEq { lhs: nl, rhs: nr }) =>
            const_qualified(ol, nl, module, locals, scope) && const_qualified(orr, nr, module, locals, scope),
        _ => false,
    }
}

/// Whether the generic parameter `n` is `o` with its bounds qualified.
spec fn generic_param_qualified(o: GenericParam, n: GenericParam, module: Seq<String>, locals: LocalNames, scope: ScopeNames) -> bool {
    n.span == o.span && match (o.kind, n.kind) {
        (GenericParamKind::Type { name: on, bounds: ob }, GenericParamKind::Type { name: nn, bounds: nb }) =>
            on == nn && ob@.len() == nb@.len()
                && forall|k: int| 0 <= k < ob@.len() ==> interface_ref_qualified(#[trigger] ob@[k], nb@[k], module, locals, scope),
        (GenericParamKind::Const { name: on, ty: ot }, GenericParamKind::Const { name: nn, ty: nt }) =>
            on == nn && ot == nt,
        _ => false,
    }
}

/// Whether the parameter `n` is `o` with its type qualified.
spec fn param_qualified(o: Param, n: Param, module: Seq<String>, locals: LocalNames, scope: ScopeNames) -> bool {
    n.span == o.span && n.kind.name == o.kind.name && ty_qualified(o.kind.ty, n.kind.ty, module, locals, scope)
}

/// Whether the field `n` is `o` with its type qualified.
spec fn field_qualified(o: Field, n: Field, module: Seq<String>, locals: LocalNames, scope: ScopeNames) -> bool {
    n.span == o.span && n.kind.name == o.kind.name && ty_qualified(o.kind.ty, n.kind.ty, module, locals, scope)
}

/// Whether the variant payload `n` is `o` qualified.
spec fn payload_qualified(o: VariantPayload, n: VariantPayload, module: Seq<String>, locals: LocalNames, scope: ScopeNames) -> bool {
    n.span == o.span && match (o.kind, n.kind) {
        (VariantPayloadKind::Unit, VariantPayloadKind::Unit) => true,
        (VariantPayloadKind::Tuple(a), VariantPayloadKind::Tuple(b)) => tys_qualified(a@, b@, module, locals, scope),
        (VariantPayloadKind::Struct(a), VariantPayloadKind::Struct(b)) => fields_qualified(a@, b@, module, locals, scope),
        _ => false,
    }
}

/// Whether the enum variant `n` is `o` qualified.
spec fn variant_qualified(o: EnumVariant, n: EnumVariant, module: Seq<String>, locals: LocalNames, scope: ScopeNames) -> bool {
    n.span == o.span && n.kind.name == o.kind.name && payload_qualified(o.kind.payload, n.kind.payload, module, locals, scope)
        && match (o.kind.discriminant, n.kind.discriminant) {
            (Some(a), Some(b)) => const_qualified(a, b, module, locals, scope),
            (None, None) => true,
            _ => false,
        }
}

/// Whether the method signature `n` is `o` qualified, with the method's
/// own generic names added to the scope.
spec fn method_sig_qualified(o: MethodSig, n: MethodSig, module: Seq<String>, locals: LocalNames, scope: ScopeNames) -> bool {
    &&& n.span == o.span
    &&& n.kind.name == o.kind.name
    &&& n.kind.receiver == o.kind.receiver
    &&& exists|inner: ScopeNames| #[trigger] scope_extends(inner, scope, o.kind.generics@)
        && generic_params_qualified(o.kind.generics@, n.kind.generics@, module, locals, inner)
        && params_qualified(o.kind.params@, n.kind.params@, module, locals, inner)
        && ty_qualified(o.kind.ret, n.kind.ret, module, locals, inner)
}

/// Whether the interface member `n` is `o` qualified.
spec fn interface_member_qualified(o: InterfaceMember, n: InterfaceMember, module: Seq<String>, locals: LocalNames, scope: ScopeNames) -> bool {
    n.span == o.span && match (o.kind, n.kind) {
        (InterfaceMemberKind::AssocConst(a), InterfaceMemberKind::AssocConst(b)) =>
            b.span == a.span && b.kind.name == a.kind.name && b.kind.ty == a.kind.ty
                && match (a.kind.default, b.kind.default) {
                    (Some(x), Some(y)) => const_qualified(x, y, module, locals, scope),
                    (None, None) => true,
                    _ => false,
                },
        (InterfaceMemberKind::Method(a), InterfaceMemberKind::Method(b)) => method_sig_qualified(a, b, module, locals, scope),
        _ => false,
    }
}

/// Whether the impl member `n` is `o` qualified.
spec fn impl_member_qualified(o: ImplMember, n: ImplMember, module: Seq<String>, locals: LocalNames, scope: ScopeNames) -> bool {
    n.span == o.span && match (o.kind, n.kind) {
        (ImplMemberKind::AssocConst(a), ImplMemberKind::AssocConst(b)) =>
            b.span == a.span && b.kind.name == a.kind.name && b.kind.ty == a.kind.ty
                && const_qualified(a.kind.expr, b.kind.expr, module, locals, scope),
        (ImplMemberKind::Method(a), ImplMemberKind::Method(b)) =>
            b.span == a.span && method_sig_qualified(a.kind.sig, b.kind.sig, module, locals, scope)
                && expr_qualified(a.kind.body, b.kind.body, module, locals, scope),
        _ => false,
    }
}

/// Whether each `where` predicate of `n` is the one of `o` qualified.
spec fn where_predicates_qualified(o: Seq<WherePredicate>, n: Seq<WherePredicate>, module: Seq<String>, locals: LocalNames, scope: ScopeNames) -> bool {
    o.len() == n.len() && forall|k: int| 0 <= k < o.len() ==> #[trigger] where_predicate_qualified(o[k], n[k], module, locals, scope)
}

/// Whether each generic parameter of `n` is the one of `o` qualified.
spec fn generic_params_qualified(o: Seq<GenericParam>, n: Seq<GenericParam>, module: Seq<String>, locals: LocalNames, scope: ScopeNames) -> bool {
    o.len() == n.len() && forall|k: int| 0 <= k < o.len() ==> #[trigger] generic_param_qualified(o[k], n[k], module, locals, scope)
}

/// Whether each parameter of `n` is the one of `o` qualified.
spec fn params_qualified(o: Seq<Param>, n: Seq<Param>, module: Seq<String>, locals: LocalNames, scope: ScopeNames) -> bool {
    o.len() == n.len() && forall|k: int| 0 <= k < o.len() ==> #[trigger] param_qualified(o[k], n[k], module, locals, scope)
}

/// Whether each field of `n` is the one of `o` qualified.
spec fn fields_qualified(o: Seq<Field>, n: Seq<Field>, module: Seq<String>, locals: LocalNames, scope: ScopeNames) -> bool {
    o.len() == n.len() && forall|k: int| 0 <= k < o.len() ==> #[trigger] field_qualified(o[k], n[k], module, locals, scope)
}

/// Whether each variant of `n` is the one of `o` qualified.
spec fn variants_qualified(o: Seq<EnumVariant>, n: Seq<EnumVariant>, module: Seq<String>, locals: LocalNames, scope: ScopeNames) -> bool {
    o.len() == n.len() && forall|k: int| 0 <= k < o.len() ==> #[trigger] variant_qualified(o[k], n[k], module, locals, scope)
}

/// Whether each interface member of `n` is the one of `o` qualified.
spec fn interface_members_qualified(o: Seq<InterfaceMember>, n: Seq<InterfaceMember>, module: Seq<String>, locals: LocalNames, scope: ScopeNames) -> bool {
    o.len() == n.len() && forall|k: int| 0 <= k < o.len() ==> #[trigger] interface_member_qualified(o[k], n[k], module, locals, scope)
}

/// Whether each impl member of `n` is the one of `o` qualified.
spec fn impl_members_qualified(o: Seq<ImplMember>, n: Seq<ImplMember>, module: Seq<String>, locals: LocalNames, scope: ScopeNames) -> bool {
    o.len() == n.len() && forall|k: int| 0 <= k < o.len() ==> #[trigger] impl_member_qualified(o[k], n[k], module, locals, scope)
}

/// Whether the interface references `n` are `o` qualified, one by one.
spec fn interface_refs_qualified(o: Seq<InterfaceRef>, n: Seq<InterfaceRef>, module: Seq<String>, locals: LocalNames, scope: ScopeNames) -> bool {
    o.len() == n.len() && forall|k: int| 0 <= k < o.len() ==> interface_ref_qualified(#[trigger] o[k], n[k], module, locals, scope)
}

/// Whether the item `n` is `o` with the references inside it qualified,
/// with the item's own generic names added to the scope.
spec fn item_qualified(o: Item, n: Item, module: Seq<String>, locals: LocalNames, scope: ScopeNames) -> bool {
    n.span == o.span && match (o.kind, n.kind) {
        (ItemKind::Use(a), ItemKind::Use(b)) => a == b,
        (ItemKind::Const(a), ItemKind::Const(b)) => b.span == a.span && b.kind.name == a.kind.name
            && b.kind.ty == a.kind.ty && const_qualified(a.kind.expr, b.kind.expr, module, locals, scope),
        (ItemKind::Struct(a), ItemKind::Struct(b)) => b.span == a.span && b.kind.name == a.kind.name
            && exists|inner: ScopeNames| #[trigger] scope_extends(inner, scope, a.kind.generics@)
                && generic_params_qualified(a.kind.generics@, b.kind.generics@, module, locals, inner)
                && where_predicates_qualified(a.kind.where_predicates@, b.kind.where_predicates@, module, locals, inner)
                && fields_qualified(a.kind.fields@, b.kind.fields@, module, locals, inner),
        (ItemKind::Enum(a), ItemKind::Enum(b)) => b.span == a.span && b.kind.name == a.kind.name
            && b.kind.repr == a.kind.repr
            && exists|inner: ScopeNames| #[trigger] scope_extends(inner, scope, a.kind.generics@)
                && generic_params_qualified(a.kind.generics@, b.kind.generics@, module, locals, inner)
                && where_predicates_qualified(a.kind.where_predicates@, b.kind.where_predicates@, module, locals, inner)
                && variants_qualified(a.kind.variants@, b.kind.variants@, module, locals, inner),
        (ItemKind::Interface(a), ItemKind::Interface(b)) => b.span == a.span && b.kind.name == a.kind.name
            && exists|inner: ScopeNames| #[trigger] scope_extends(inner, scope, a.kind.generics@)
                && generic_params_qualified(a.kind.generics@, b.kind.generics@, module, locals, inner)
                && interface_refs_qualified(a.kind.super_interfaces@, b.kind.super_interfaces@, module, locals, inner)
                && interface_members_qualified(a.kind.members@, b.kind.members@, module, locals, inner),
        (ItemKind::Impl(a), ItemKind::Impl(b)) => b.span == a.span
            && exists|inner: ScopeNames| #[trigger] scope_extends(inner, scope, a.kind.generics@)
                && generic_params_qualified(a.kind.generics@, b.kind.generics@, module, locals, inner)
                && where_predicates_qualified(a.kind.where_predicates@, b.kind.where_predicates@, module, locals, inner)
                && match (a.kind.interface, b.kind.interface) {
                    (Some(x), Some(y)) => interface_ref_qualified(x, y, module, locals, inner),
                    (None, None) => true,
                    _ => false,
                }
                && ty_qualified(a.kind.self_ty, b.kind.self_ty, module, locals, inner)
                && impl_members_qualified(a.kind.members@, b.kind.members@, module, locals, inner),
        (ItemKind::Fn(a), ItemKind::Fn(b)) => b.span == a.span && b.kind.name == a.kind.name
            && exists|inner: ScopeNames| #[trigger] scope_extends(inner, scope, a.kind.generics@)
                && generic_params_qualified(a.kind.generics@, b.kind.generics@, module, locals, inner)
                && where_predicates_qualified(a.kind.where_predicates@, b.kind.where_predicates@, module, locals, inner)
                && params_qualified(a.kind.params@, b.kind.params@, module, locals, inner)
                && ty_qualified(a.kind.ret, b.kind.ret, module, locals, inner)
                && expr_qualified(a.kind.body, b.kind.body, module, locals, inner),
        _ => false,
    }
}

/// A qualified list is qualified item by item, and so is a list grown by a
/// qualified item.
proof fn lemma_tys_qualified_push(o: Seq<Ty>, n: Seq<Ty>, a: Ty, b: Ty, module: Seq<String>, locals: LocalNames, scope: ScopeNames)
    requires
        tys_qualified(o, n, module, locals, scope),
        ty_qualified(a, b, module, locals, scope),
    ensures
        tys_qualified(o.push(a), n.push(b), module, locals, scope),
{
    assert(o.push(a).subrange(0, o.len() as int) =~= o);
    assert(n.push(b).subrange(0, n.len() as int) =~= n);
}

proof fn lemma_args_qualified_push(o: Seq<GenericArg>, n: Seq<GenericArg>, a: GenericArg, b: GenericArg, module: Seq<String>, locals: LocalNames, scope: ScopeNames)
    requires
        args_qualified(o, n, module, locals, scope),
        arg_qualified(a, b, module, locals, scope),
    ensures
        args_qualified(o.push(a), n.push(b), module, locals, scope),
{
    assert(o.push(a).subrange(0, o.len() as int) =~= o);
    assert(n.push(b).subrange(0, n.len() as int) =~= n);
}

/// Qualifies a path in type position.
fn qualify_type_path(path: &mut Path, module: &Vec<String>, locals: &LocalNames, scope: &ScopeNames, diagnostics: &mut Vec<Diagnostic>)
    requires
        locals.wf(),
    ensures
        dependency_errors_added(old(diagnostics)@, final(diagnostics)@),
        final(path).span == old(path).span,
        old(path).kind.segments@.len() != 1 ==> final(path).kind.segments@ == old(path).kind.segments@
            && dependency_checked(old(diagnostics)@, final(diagnostics)@, *old(path), module@, *locals),
        old(path).kind.segments@.len() == 1 ==> final(diagnostics)@ == old(diagnostics)@
            && names_view(final(path).kind.segments@) == retargeted(old(path).kind.segments@,
                type_path_target(old(path).kind.segments@[0]@, module@, *locals, *scope)),
{
    if path.kind.segments.len() != 1 {
        require_explicit_dependency(path, module, locals, diagnostics);
        return;
    }
    let name = path.kind.segments[0].clone();
    if contains(&scope.type_params, name.as_str()) {
        return;
    }
    if contains(&locals.types, name.as_str()) || contains(&locals.interfaces, name.as_str()) {
        path.kind.segments = qualified_segments(module, name.as_str());
    } else {
        match locals.import_get(name.as_str()) {
            Some(p) => {
                path.kind.segments = clone_names(p);
            },
            None => {},
        }
    }
}

/// Qualifies a path in interface position.
fn qualify_interface_path(path: &mut Path, module: &Vec<String>, locals: &LocalNames, diagnostics: &mut Vec<Diagnostic>)
    requires
        locals.wf(),
    ensures
        dependency_errors_added(old(diagnostics)@, final(diagnostics)@),
        final(path).span == old(path).span,
        old(path).kind.segments@.len() != 1 ==> final(path).kind.segments@ == old(path).kind.segments@
            && dependency_checked(old(diagnostics)@, final(diagnostics)@, *old(path), module@, *locals),
        old(path).kind.segments@.len() == 1 ==> final(diagnostics)@ == old(diagnostics)@
            && names_view(final(path).kind.segments@) == retargeted(old(path).kind.segments@,
                interface_path_target(old(path).kind.segments@[0]@, module@, *locals)),
{
    if path.kind.segments.len() != 1 {
        require_explicit_dependency(path, module, locals, diagnostics);
        return;
    }
    let name = path.kind.segments[0].clone();
    if contains(&locals.interfaces, name.as_str()) {
        path.kind.segments = qualified_segments(module, name.as_str());
    } else {
        match locals.import_get(name.as_str()) {
            Some(p) => {
                path.kind.segments = clone_names(p);
            },
            None => {},
        }
    }
}

/// Qualifies a path naming a constant.
fn qualify_const_path(path: &mut Path, module: &Vec<String>, locals: &LocalNames, scope: &ScopeNames, diagnostics: &mut Vec<Diagnostic>)
    requires
        locals.wf(),
    ensures
        dependency_errors_added(old(diagnostics)@, final(diagnostics)@),
        final(path).span == old(path).span,
        old(path).kind.segments@.len() != 1 ==> final(path).kind.segments@ == old(path).kind.segments@
            && dependency_checked(old(diagnostics)@, final(diagnostics)@, *old(path), module@, *locals),
        old(path).kind.segments@.len() == 1 ==> final(diagnostics)@ == old(diagnostics)@
            && names_view(final(path).kind.segments@) == retargeted(old(path).kind.segments@,
                const_path_target(old(path).kind.segments@[0]@, module@, *locals, *scope)),
{
    if path.kind.segments.len() != 1 {
        require_explicit_dependency(path, module, locals, diagnostics);
        return;
    }
    let name = path.kind.segments[0].clone();
    let is_param = contains(&scope.const_params, name.as_str());
    if !is_param && contains(&locals.consts, name.as_str()) {
        path.kind.segments = qualified_segments(module, name.as_str());
    } else if !is_param {
        match locals.import_get(name.as_str()) {
            Some(p) => {
                path.kind.segments = clone_names(p);
            },
            None => {},
        }
    }
}

/// Qualifies the enum path of a constructor or variant pattern. A
/// one-segment path that names nothing known here and no imported root is
/// reported.
fn qualify_ctor_path(path: &mut Path, module: &Vec<String>, locals: &LocalNames, scope: &ScopeNames, diagnostics: &mut Vec<Diagnostic>)
    requires
        locals.wf(),
    ensures
        dependency_errors_added(old(diagnostics)@, final(diagnostics)@),
        final(path).span == old(path).span,
        old(path).kind.segments@.len() != 1 ==> final(path).kind.segments@ == old(path).kind.segments@
            && dependency_checked(old(diagnostics)@, final(diagnostics)@, *old(path), module@, *locals),
        old(path).kind.segments@.len() == 1 ==> {
            let name = old(path).kind.segments@[0]@;
            let target = type_path_target(name, module@, *locals, *scope);
            &&& names_view(final(path).kind.segments@) == retargeted(old(path).kind.segments@, target)
            &&& if target is None && !name_in(scope.type_params@, name) && !locals.has_import_root(name) {
                &&& final(diagnostics)@.len() == old(diagnostics)@.len() + 1
                &&& final(diagnostics)@.drop_last() == old(diagnostics)@
                &&& final(diagnostics)@.last().severity == crate::diagnostic::DiagnosticSeverity::Error
                &&& final(diagnostics)@.last().span == old(path).span
                &&& final(diagnostics)@.last().message@ == ctor_dependency_message(name)
            } else {
                final(diagnostics)@ == old(diagnostics)@
            }
        },
{
    if path.kind.segments.len() != 1 {
        qualify_type_path(path, module, locals, scope, diagnostics);
        return;
    }
    let name = path.kind.segments[0].clone();
    if contains(&scope.type_params, name.as_str()) {
        return;
    }
    if contains(&locals.types, name.as_str()) || contains(&locals.interfaces, name.as_str()) {
        path.kind.segments = qualified_segments(module, name.as_str());
    } else {
        match locals.import_get(name.as_str()) {
            Some(p) => {
                path.kind.segments = clone_names(p);
            },
            None => {
                if !contains(&locals.import_roots, name.as_str()) {
                    proof {
                        reveal_strlit("path `");
                        reveal_strlit("::...` requires an explicit `use ");
                        reveal_strlit(";` dependency");
                    }
                    let mut message = owned("path `");
                    push_string(&mut message, &name);
                    push_str(&mut message, "::...` requires an explicit `use ");
                    push_string(&mut message, &name);
                    push_str(&mut message, ";` dependency");
                    diagnostics.push(Diagnostic::error(path.span, message));
                    proof {
                        assert(diagnostics@.drop_last() =~= old(diagnostics)@);
                        assert(diagnostics@.last().message@ == ctor_dependency_message(name@));
                        assert(dependency_error(diagnostics@.last()));
                    }
                }
            },
        }
    }
}

/// The segments of an imported path joined with `::`.
fn join_names(names: &Vec<String>) -> (r: String)
    ensures
        r@ == crate::ast::join_segments(names_view(names@)),
{
    let path = Node::new(Span::zero(), crate::ast::PathKind { segments: clone_names(names) });
    path_name(&path)
}

// ---------------------------------------------------------------------
// Qualifying the references of a source file
/// Qualifies the references inside an item: each name declared in this file
/// gets the module prefix, each imported leaf name its full path, and each
/// qualified path whose root module was not imported is reported. Generic
/// parameter names of the item are left alone.
fn qualify_item_refs(item: &mut Item, module: &Vec<String>, locals: &LocalNames, scope: &ScopeNames, diagnostics: &mut Vec<Diagnostic>)
    requires
        locals.wf(),
    ensures
        dependency_errors_added(old(diagnostics)@, final(diagnostics)@),
        final(item).span == old(item).span,
        item_name(*final(item)) == item_name(*old(item)),
        item_qualified(*old(item), *final(item), module@, *locals, *scope),
        (old(item).kind is Use || (old(item).kind matches ItemKind::Const(c) && c.kind.expr.kind is IntLit))
            ==> final(diagnostics)@ == old(diagnostics)@,
{
    match &mut item.kind {
        ItemKind::Use(_) => {},
        ItemKind::Const(c) => qualify_const_expr(&mut c.kind.expr, module, locals, scope, diagnostics),
        ItemKind::Struct(s) => {
            let inner = scope.with_generics(&s.kind.generics);
            qualify_generic_params(&mut s.kind.generics, module, locals, &inner, diagnostics);
            qualify_where_predicates(&mut s.kind.where_predicates, module, locals, &inner, diagnostics);
            qualify_fields(&mut s.kind.fields, module, locals, &inner, diagnostics);
        },
        ItemKind::Enum(e) => {
            let inner = scope.with_generics(&e.kind.generics);
            qualify_generic_params(&mut e.kind.generics, module, locals, &inner, diagnostics);
            qualify_where_predicates(&mut e.kind.where_predicates, module, locals, &inner, diagnostics);
            qualify_variants(&mut e.kind.variants, module, locals, &inner, diagnostics);
        },
        ItemKind::Interface(it) => {
            let inner = scope.with_generics(&it.kind.generics);
            qualify_generic_params(&mut it.kind.generics, module, locals, &inner, diagnostics);
            qualify_interface_refs(&mut it.kind.super_interfaces, module, locals, &inner, diagnostics);
            qualify_interface_members(&mut it.kind.members, module, locals, &inner, diagnostics);
        },
        ItemKind::Impl(im) => {
            let inner = scope.with_generics(&im.kind.generics);
            qualify_generic_params(&mut im.kind.generics, module, locals, &inner, diagnostics);
            qualify_where_predicates(&mut im.kind.where_predicates, module, locals, &inner, diagnostics);
            match &mut im.kind.interface {
                Some(interface) => qualify_interface_ref(interface, module, locals, &inner, diagnostics),
                None => {},
            }
            qualify_ty(&mut im.kind.self_ty, module, locals, &inner, diagnostics);
            qualify_impl_members(&mut im.kind.members, module, locals, &inner, diagnostics);
        },
        ItemKind::Fn(f) => {
            let inner = scope.with_generics(&f.kind.generics);
            qualify_generic_params(&mut f.kind.generics, module, locals, &inner, diagnostics);
            qualify_where_predicates(&mut f.kind.where_predicates, module, locals, &inner, diagnostics);
            qualify_params(&mut f.kind.params, module, locals, &inner, diagnostics);
            qualify_ty(&mut f.kind.ret, module, locals, &inner, diagnostics);
            qualify_expr(&mut f.kind.body, module, locals, &inner, diagnostics);
        },
    }
}

/// Qualifies the payloads and discriminants of enum variants.
fn qualify_variants(xs: &mut Vec<crate::ast::EnumVariant>, module: &Vec<String>, locals: &LocalNames, scope: &ScopeNames, diagnostics: &mut Vec<Diagnostic>)
    requires
        locals.wf(),
    ensures
        dependency_errors_added(old(diagnostics)@, final(diagnostics)@),
        variants_qualified(old(xs)@, final(xs)@, module@, *locals, *scope),
{
    let mut i: usize = 0;
    while i < xs.len()
        invariant
            dependency_errors_added(old(diagnostics)@, diagnostics@),
            0 <= i <= xs@.len(),
            locals.wf(),
            xs@.len() == old(xs)@.len(),
            forall|k: int| i <= k < xs@.len() ==> xs@[k] == old(xs)@[k],
            forall|k: int| 0 <= k < i ==> #[trigger] variant_qualified(old(xs)@[k], xs@[k], module@, *locals, *scope),
        decreases xs@.len() - i,
    {
        let ghost xs0 = xs@;
        let mut x = xs.remove(i);
        proof {
            assert(x == old(xs)@[i as int]);
        }
        qualify_variant_payload(&mut x.kind.payload, module, locals, scope, diagnostics);
        match &mut x.kind.discriminant {
            Some(d) => qualify_const_expr(d, module, locals, scope, diagnostics),
            None => {},
        }
        assert(variant_qualified(old(xs)@[i as int], x, module@, *locals, *scope));
        xs.insert(i, x);
        proof {
            assert forall|k: int| 0 <= k < i + 1 implies #[trigger] variant_qualified(old(xs)@[k], xs@[k], module@, *locals, *scope) by {
                if k < i {
                    assert(xs@[k] == xs0[k]);
                }
            }
        }
        i = i + 1;
    }
}

/// Qualifies the members of an interface.
fn qualify_interface_members(xs: &mut Vec<crate::ast::InterfaceMember>, module: &Vec<String>, locals: &LocalNames, scope: &ScopeNames, diagnostics: &mut Vec<Diagnostic>)
    requires
        locals.wf(),
    ensures
        dependency_errors_added(old(diagnostics)@, final(diagnostics)@),
        interface_members_qualified(old(xs)@, final(xs)@, module@, *locals, *scope),
{
    let mut i: usize = 0;
    while i < xs.len()
        invariant
            dependency_errors_added(old(diagnostics)@, diagnostics@),
            0 <= i <= xs@.len(),
            locals.wf(),
            xs@.len() == old(xs)@.len(),
            forall|k: int| i <= k < xs@.len() ==> xs@[k] == old(xs)@[k],
            forall|k: int| 0 <= k < i ==> #[trigger] interface_member_qualified(old(xs)@[k], xs@[k], module@, *locals, *scope),
        decreases xs@.len() - i,
    {
        let ghost xs0 = xs@;
        let mut x = xs.remove(i);
        proof {
            assert(x == old(xs)@[i as int]);
        }
        match &mut x.kind {
            InterfaceMemberKind::AssocConst(sig) => {
                match &mut sig.kind.default {
                    Some(d) => qualify_const_expr(d, module, locals, scope, diagnostics),
                    None => {},
                }
            },
            InterfaceMemberKind::Method(sig) => qualify_method_sig(sig, module, locals, scope, diagnostics),
        }
        assert(interface_member_qualified(old(xs)@[i as int], x, module@, *locals, *scope));
        xs.insert(i, x);
        proof {
            assert forall|k: int| 0 <= k < i + 1 implies #[trigger] interface_member_qualified(old(xs)@[k], xs@[k], module@, *locals, *scope) by {
                if k < i {
                    assert(xs@[k] == xs0[k]);
                }
            }
        }
        i = i + 1;
    }
}

/// Qualifies the members of an impl; method bodies see the impl's generics.
fn qualify_impl_members(xs: &mut Vec<crate::ast::ImplMember>, module: &Vec<String>, locals: &LocalNames, scope: &ScopeNames, diagnostics: &mut Vec<Diagnostic>)
    requires
        locals.wf(),
    ensures
        dependency_errors_added(old(diagnostics)@, final(diagnostics)@),
        impl_members_qualified(old(xs)@, final(xs)@, module@, *locals, *scope),
{
    let mut i: usize = 0;
    while i < xs.len()
        invariant
            dependency_errors_added(old(diagnostics)@, diagnostics@),
            0 <= i <= xs@.len(),
            locals.wf(),
            xs@.len() == old(xs)@.len(),
            forall|k: int| i <= k < xs@.len() ==> xs@[k] == old(xs)@[k],
            forall|k: int| 0 <= k < i ==> #[trigger] impl_member_qualified(old(xs)@[k], xs@[k], module@, *locals, *scope),
        decreases xs@.len() - i,
    {
        let ghost xs0 = xs@;
        let mut x = xs.remove(i);
        proof {
            assert(x == old(xs)@[i as int]);
        }
        match &mut x.kind {
            ImplMemberKind::AssocConst(c) => qualify_const_expr(&mut c.kind.expr, module, locals, scope, diagnostics),
            ImplMemberKind::Method(method) => {
                qualify_method_sig(&mut method.kind.sig, module, locals, scope, diagnostics);
                qualify_expr(&mut method.kind.body, module, locals, scope, diagnostics);
            },
        }
        assert(impl_member_qualified(old(xs)@[i as int], x, module@, *locals, *scope));
        xs.insert(i, x);
        proof {
            assert forall|k: int| 0 <= k < i + 1 implies #[trigger] impl_member_qualified(old(xs)@[k], xs@[k], module@, *locals, *scope) by {
                if k < i {
                    assert(xs@[k] == xs0[k]);
                }
            }
        }
        i = i + 1;
    }
}

/// Qualifies the bounds of generic parameters.
fn qualify_generic_params(xs: &mut Vec<GenericParam>, module: &Vec<String>, locals: &LocalNames, scope: &ScopeNames, diagnostics: &mut Vec<Diagnostic>)
    requires
        locals.wf(),
    ensures
        dependency_errors_added(old(diagnostics)@, final(diagnostics)@),
        generic_params_qualified(old(xs)@, final(xs)@, module@, *locals, *scope),
{
    let mut i: usize = 0;
    while i < xs.len()
        invariant
            dependency_errors_added(old(diagnostics)@, diagnostics@),
            0 <= i <= xs@.len(),
            locals.wf(),
            xs@.len() == old(xs)@.len(),
            forall|k: int| i <= k < xs@.len() ==> xs@[k] == old(xs)@[k],
            forall|k: int| 0 <= k < i ==> #[trigger] generic_param_qualified(old(xs)@[k], xs@[k], module@, *locals, *scope),
        decreases xs@.len() - i,
    {
        let mut x = xs.remove(i);
        proof {
            assert(x == old(xs)@[i as int]);
        }
        match &mut x.kind {
            GenericParamKind::Type { bounds, .. } => qualify_interface_refs(bounds, module, locals, scope, diagnostics),
            GenericParamKind::Const { .. } => {},
        }
        xs.insert(i, x);
        i = i + 1;
    }
}

/// Qualifies a list of interface references.
fn qualify_interface_refs(xs: &mut Vec<InterfaceRef>, module: &Vec<String>, locals: &LocalNames, scope: &ScopeNames, diagnostics: &mut Vec<Diagnostic>)
    requires
        locals.wf(),
    ensures
        dependency_errors_added(old(diagnostics)@, final(diagnostics)@),
        final(xs)@.len() == old(xs)@.len(),
        forall|k: int| 0 <= k < old(xs)@.len() ==> interface_ref_qualified(#[trigger] old(xs)@[k], final(xs)@[k], module@, *locals, *scope),
{
    let mut i: usize = 0;
    while i < xs.len()
        invariant
            dependency_errors_added(old(diagnostics)@, diagnostics@),
            0 <= i <= xs@.len(),
            locals.wf(),
            xs@.len() == old(xs)@.len(),
            forall|k: int| i <= k < xs@.len() ==> xs@[k] == old(xs)@[k],
            forall|k: int| 0 <= k < i ==> interface_ref_qualified(#[trigger] old(xs)@[k], xs@[k], module@, *locals, *scope),
        decreases xs@.len() - i,
    {
        let mut x = xs.remove(i);
        proof {
            assert(x == old(xs)@[i as int]);
        }
        qualify_interface_ref(&mut x, module, locals, scope, diagnostics);
        xs.insert(i, x);
        i = i + 1;
    }
}

/// Qualifies `where` predicates.
fn qualify_where_predicates(xs: &mut Vec<WherePredicate>, module: &Vec<String>, locals: &LocalNames, scope: &ScopeNames, diagnostics: &mut Vec<Diagnostic>)
    requires
        locals.wf(),
    ensures
        dependency_errors_added(old(diagnostics)@, final(diagnostics)@),
        where_predicates_qualified(old(xs)@, final(xs)@, module@, *locals, *scope),
{
    let mut i: usize = 0;
    while i < xs.len()
        invariant
            dependency_errors_added(old(diagnostics)@, diagnostics@),
            0 <= i <= xs@.len(),
            locals.wf(),
            xs@.len() == old(xs)@.len(),
            forall|k: int| i <= k < xs@.len() ==> xs@[k] == old(xs)@[k],
            forall|k: int| 0 <= k < i ==> #[trigger] where_predicate_qualified(old(xs)@[k], xs@[k], module@, *locals, *scope),
        decreases xs@.len() - i,
    {
        let mut x = xs.remove(i);
        proof {
            assert(x == old(xs)@[i as int]);
        }
        match &mut x.kind {
            WherePredicateKind::Implements { ty, interface } => {
                qualify_ty(ty, module, locals, scope, diagnostics);
                qualify_interface_ref(interface, module, locals, scope, diagnostics);
            },
            WherePredicateKind::ConstEq { lhs, rhs } => {
                qualify_const_expr(lhs, module, locals, scope, diagnostics);
                qualify_const_expr(rhs, module, locals, scope, diagnostics);
            },
        }
        xs.insert(i, x);
        i = i + 1;
    }
}

/// Qualifies a method signature; its own generics join the scope.
fn qualify_method_sig(sig: &mut MethodSig, module: &Vec<String>, locals: &LocalNames, scope: &ScopeNames, diagnostics: &mut Vec<Diagnostic>)
    requires
        locals.wf(),
    ensures
        dependency_errors_added(old(diagnostics)@, final(diagnostics)@),
        method_sig_qualified(*old(sig), *final(sig), module@, *locals, *scope),
{
    let inner = scope.with_generics(&sig.kind.generics);
    qualify_generic_params(&mut sig.kind.generics, module, locals, &inner, diagnostics);
    qualify_params(&mut sig.kind.params, module, locals, &inner, diagnostics);
    qualify_ty(&mut sig.kind.ret, module, locals, &inner, diagnostics);
    proof {
        assert(scope_extends(inner, *scope, old(sig).kind.generics@));
    }
}

/// Qualifies the types of parameters.
fn qualify_params(xs: &mut Vec<crate::ast::Param>, module: &Vec<String>, locals: &LocalNames, scope: &ScopeNames, diagnostics: &mut Vec<Diagnostic>)
    requires
        locals.wf(),
    ensures
        dependency_errors_added(old(diagnostics)@, final(diagnostics)@),
        params_qualified(old(xs)@, final(xs)@, module@, *locals, *scope),
{
    let mut i: usize = 0;
    while i < xs.len()
        invariant
            dependency_errors_added(old(diagnostics)@, diagnostics@),
            0 <= i <= xs@.len(),
            locals.wf(),
            xs@.len() == old(xs)@.len(),
            forall|k: int| i <= k < xs@.len() ==> xs@[k] == old(xs)@[k],
            forall|k: int| 0 <= k < i ==> #[trigger] param_qualified(old(xs)@[k], xs@[k], module@, *locals, *scope),
        decreases xs@.len() - i,
    {
        let mut x = xs.remove(i);
        proof {
            assert(x == old(xs)@[i as int]);
        }
        qualify_ty(&mut x.kind.ty, module, locals, scope, diagnostics);
        xs.insert(i, x);
        i = i + 1;
    }
}

/// Qualifies the types of a variant's payload.
fn qualify_variant_payload(payload: &mut VariantPayload, module: &Vec<String>, locals: &LocalNames, scope: &ScopeNames, diagnostics: &mut Vec<Diagnostic>)
    requires
        locals.wf(),
    ensures
        dependency_errors_added(old(diagnostics)@, final(diagnostics)@),
        payload_qualified(*old(payload), *final(payload), module@, *locals, *scope),
{
    match &mut payload.kind {
        VariantPayloadKind::Unit => {},
        VariantPayloadKind::Tuple(tys) => qualify_tys(tys, module, locals, scope, diagnostics),
        VariantPayloadKind::Struct(fields) => qualify_fields(fields, module, locals, scope, diagnostics),
    }
}

/// Qualifies the types of fields.
fn qualify_fields(xs: &mut Vec<Field>, module: &Vec<String>, locals: &LocalNames, scope: &ScopeNames, diagnostics: &mut Vec<Diagnostic>)
    requires
        locals.wf(),
    ensures
        dependency_errors_added(old(diagnostics)@, final(diagnostics)@),
        fields_qualified(old(xs)@, final(xs)@, module@, *locals, *scope),
{
    let mut i: usize = 0;
    while i < xs.len()
        invariant
            dependency_errors_added(old(diagnostics)@, diagnostics@),
            0 <= i <= xs@.len(),
            locals.wf(),
            xs@.len() == old(xs)@.len(),
            forall|k: int| i <= k < xs@.len() ==> xs@[k] == old(xs)@[k],
            forall|k: int| 0 <= k < i ==> #[trigger] field_qualified(old(xs)@[k], xs@[k], module@, *locals, *scope),
        decreases xs@.len() - i,
    {
        let mut x = xs.remove(i);
        proof {
            assert(x == old(xs)@[i as int]);
        }
        qualify_ty(&mut x.kind.ty, module, locals, scope, diagnostics);
        xs.insert(i, x);
        i = i + 1;
    }
}

/// Qualifies the paths inside a type.
fn qualify_ty(ty: &mut Ty, module: &Vec<String>, locals: &LocalNames, scope: &ScopeNames, diagnostics: &mut Vec<Diagnostic>)
    requires
        locals.wf(),
    ensures
        dependency_errors_added(old(diagnostics)@, final(diagnostics)@),
        final(ty).span == old(ty).span,
        ty_qualified(*old(ty), *final(ty), module@, *locals, *scope),
    decreases *old(ty),
{
    match &mut ty.kind {
        TyKind::Unit | TyKind::Bool | TyKind::Never | TyKind::Int(_) | TyKind::SelfTy => {},
        TyKind::Path { path, args } => {
            qualify_type_path(path, module, locals, scope, diagnostics);
            qualify_generic_args(args, module, locals, scope, diagnostics);
        },
        TyKind::Array { elem, len } => {
            qualify_ty(elem, module, locals, scope, diagnostics);
            qualify_const_expr(len, module, locals, scope, diagnostics);
        },
        TyKind::Ref { ty: inner, .. } => qualify_ty(inner, module, locals, scope, diagnostics),
        TyKind::Fn { params, ret } => {
            qualify_tys(params, module, locals, scope, diagnostics);
            qualify_ty(ret, module, locals, scope, diagnostics);
        },
    }
}

/// Qualifies a list of types.
fn qualify_tys(xs: &mut Vec<Ty>, module: &Vec<String>, locals: &LocalNames, scope: &ScopeNames, diagnostics: &mut Vec<Diagnostic>)
    requires
        locals.wf(),
    ensures
        dependency_errors_added(old(diagnostics)@, final(diagnostics)@),
        tys_qualified(old(xs)@, final(xs)@, module@, *locals, *scope),
        decreases *old(xs),
{
    let mut i: usize = 0;
    while i < xs.len()
        invariant
            dependency_errors_added(old(diagnostics)@, diagnostics@),
            0 <= i <= xs@.len(),
            locals.wf(),
            xs@.len() == old(xs)@.len(),
            forall|k: int| i <= k < xs@.len() ==> xs@[k] == old(xs)@[k],
            tys_qualified(old(xs)@.take(i as int), xs@.take(i as int), module@, *locals, *scope),
        decreases xs@.len() - i,
    {
        let ghost prefix = xs@.take(i as int);
        let mut x = xs.remove(i);
        proof {
            assert(x == old(xs)@[i as int]);
        }
        qualify_ty(&mut x, module, locals, scope, diagnostics);
        let ghost done = x;
        xs.insert(i, x);
        proof {
            assert(prefix =~= xs@.take(i as int));
            lemma_tys_qualified_push(old(xs)@.take(i as int), prefix, old(xs)@[i as int], done, module@, *locals, *scope);
            assert(old(xs)@.take(i as int).push(old(xs)@[i as int]) =~= old(xs)@.take(i + 1));
            assert(prefix.push(done) =~= xs@.take(i + 1));
        }
        i = i + 1;
    }
    proof {
        assert(old(xs)@.take(old(xs)@.len() as int) =~= old(xs)@);
        assert(xs@.take(xs@.len() as int) =~= xs@);
    }
}

/// Qualifies a list of generic arguments.
fn qualify_generic_args(xs: &mut Vec<GenericArg>, module: &Vec<String>, locals: &LocalNames, scope: &ScopeNames, diagnostics: &mut Vec<Diagnostic>)
    requires
        locals.wf(),
    ensures
        dependency_errors_added(old(diagnostics)@, final(diagnostics)@),
        args_qualified(old(xs)@, final(xs)@, module@, *locals, *scope),
        decreases *old(xs),
{
    let mut i: usize = 0;
    while i < xs.len()
        invariant
            dependency_errors_added(old(diagnostics)@, diagnostics@),
            0 <= i <= xs@.len(),
            locals.wf(),
            xs@.len() == old(xs)@.len(),
            forall|k: int| i <= k < xs@.len() ==> xs@[k] == old(xs)@[k],
            args_qualified(old(xs)@.take(i as int), xs@.take(i as int), module@, *locals, *scope),
        decreases xs@.len() - i,
    {
        let ghost prefix = xs@.take(i as int);
        let mut x = xs.remove(i);
        proof {
            assert(x == old(xs)@[i as int]);
        }
        qualify_generic_arg(&mut x, module, locals, scope, diagnostics);
        let ghost done = x;
        xs.insert(i, x);
        proof {
            assert(prefix =~= xs@.take(i as int));
            lemma_args_qualified_push(old(xs)@.take(i as int), prefix, old(xs)@[i as int], done, module@, *locals, *scope);
            assert(old(xs)@.take(i as int).push(old(xs)@[i as int]) =~= old(xs)@.take(i + 1));
            assert(prefix.push(done) =~= xs@.take(i + 1));
        }
        i = i + 1;
    }
    proof {
        assert(old(xs)@.take(old(xs)@.len() as int) =~= old(xs)@);
        assert(xs@.take(xs@.len() as int) =~= xs@);
    }
}

/// Qualifies a generic argument.
fn qualify_generic_arg(arg: &mut GenericArg, module: &Vec<String>, locals: &LocalNames, scope: &ScopeNames, diagnostics: &mut Vec<Diagnostic>)
    requires
        locals.wf(),
    ensures
        dependency_errors_added(old(diagnostics)@, final(diagnostics)@),
        arg_qualified(*old(arg), *final(arg), module@, *locals, *scope),
    decreases *old(arg),
{
    match &mut arg.kind {
        GenericArgKind::Ty(t) => qualify_ty(t, module, locals, scope, diagnostics),
        GenericArgKind::Const(e) => qualify_const_expr(e, module, locals, scope, diagnostics),
    }
}

/// Qualifies the constants and types named in a constant expression.
fn qualify_const_expr(expr: &mut ConstExpr, module: &Vec<String>, locals: &LocalNames, scope: &ScopeNames, diagnostics: &mut Vec<Diagnostic>)
    requires
        locals.wf(),
    ensures
        dependency_errors_added(old(diagnostics)@, final(diagnostics)@),
        const_qualified(*old(expr), *final(expr), module@, *locals, *scope),
        old(expr).kind is IntLit ==> final(diagnostics)@ == old(diagnostics)@,
    decreases *old(expr),
{
    match &mut expr.kind {
        ConstExprKind::IntLit(_) | ConstExprKind::Param(_) => {},
        ConstExprKind::Path(path) => qualify_const_path(path, module, locals, scope, diagnostics),
        ConstExprKind::AssocConst { ty, interface, .. } => {
            qualify_ty(ty, module, locals, scope, diagnostics);
            qualify_interface_path(interface, module, locals, diagnostics);
        },
        ConstExprKind::Unary { expr: inner, .. } => qualify_const_expr(inner, module, locals, scope, diagnostics),
        ConstExprKind::Binary { lhs, rhs, .. } => {
            qualify_const_expr(lhs, module, locals, scope, diagnostics);
            qualify_const_expr(rhs, module, locals, scope, diagnostics);
        },
        ConstExprKind::Cast { expr: inner, .. } => qualify_const_expr(inner, module, locals, scope, diagnostics),
    }
}

/// Qualifies an interface reference and its arguments.
fn qualify_interface_ref(interface: &mut InterfaceRef, module: &Vec<String>, locals: &LocalNames, scope: &ScopeNames, diagnostics: &mut Vec<Diagnostic>)
    requires
        locals.wf(),
    ensures
        dependency_errors_added(old(diagnostics)@, final(diagnostics)@),
        interface_ref_qualified(*old(interface), *final(interface), module@, *locals, *scope),
{
    qualify_interface_path(&mut interface.kind.path, module, locals, diagnostics);
    qualify_generic_args(&mut interface.kind.args, module, locals, scope, diagnostics);
}

/// Qualifies the names an expression refers to: called functions, struct
/// and enum paths, and the types and patterns inside it.
fn qualify_expr(expr: &mut Expr, module: &Vec<String>, locals: &LocalNames, scope: &ScopeNames, diagnostics: &mut Vec<Diagnostic>)
    requires
        locals.wf(),
    ensures
        dependency_errors_added(old(diagnostics)@, final(diagnostics)@),
        expr_qualified(*old(expr), *final(expr), module@, *locals, *scope),
    decreases *old(expr),
{
    match &mut expr.kind {
        ExprKind::UnitLit | ExprKind::BoolLit(_) | ExprKind::IntLit(_) | ExprKind::Todo | ExprKind::Var(_) => {},
        ExprKind::Unary { expr: inner, .. } => qualify_expr(inner, module, locals, scope, diagnostics),
        ExprKind::Binary { lhs, rhs, .. } => {
            qualify_expr(lhs, module, locals, scope, diagnostics);
            qualify_expr(rhs, module, locals, scope, diagnostics);
        },
        ExprKind::Assign { lhs, rhs } => {
            qualify_expr(lhs, module, locals, scope, diagnostics);
            qualify_expr(rhs, module, locals, scope, diagnostics);
        },
        ExprKind::Call { callee, args } => {
            let is_var = match &callee.kind {
                ExprKind::Var(_) => true,
                _ => false,
            };
            if is_var {
                match &mut callee.kind {
                    ExprKind::Var(name) => {
                        if contains(&locals.fns, name.as_str()) {
                            *name = qualify_name(module, name.as_str());
                        } else {
                            match locals.import_get(name.as_str()) {
                                Some(p) => {
                                    *name = join_names(p);
                                },
                                None => {},
                            }
                        }
                    },
                    _ => {},
                }
            } else {
                qualify_expr(callee, module, locals, scope, diagnostics);
            }
            qualify_exprs(args, module, locals, scope, diagnostics);
        },
        ExprKind::MethodCall { receiver, args, .. } => {
            qualify_expr(receiver, module, locals, scope, diagnostics);
            qualify_exprs(args, module, locals, scope, diagnostics);
        },
        ExprKind::StructLit { path, fields } => {
            qualify_type_path(path, module, locals, scope, diagnostics);
            qualify_field_exprs(fields, module, locals, scope, diagnostics);
        },
        ExprKind::EnumCtor { enum_path, args, .. } => {
            qualify_ctor_path(enum_path, module, locals, scope, diagnostics);
            qualify_enum_ctor_args(args, module, locals, scope, diagnostics);
        },
        ExprKind::Field { base, .. } => qualify_expr(base, module, locals, scope, diagnostics),
        ExprKind::Index { base, index } => {
            qualify_expr(base, module, locals, scope, diagnostics);
            qualify_expr(index, module, locals, scope, diagnostics);
        },
        ExprKind::Match { scrutinee, arms } => {
            qualify_expr(scrutinee, module, locals, scope, diagnostics);
            qualify_arms(arms, module, locals, scope, diagnostics);
        },
        ExprKind::If { cond, then_branch, else_branch } => {
            qualify_expr(cond, module, locals, scope, diagnostics);
            qualify_block(then_branch, module, locals, scope, diagnostics);
            match else_branch {
                Some(block) => qualify_block(block, module, locals, scope, diagnostics),
                None => {},
            }
        },
        ExprKind::Block(block) => qualify_block(block, module, locals, scope, diagnostics),
        ExprKind::Return(value) => {
            match value {
                Some(v) => qualify_expr(v, module, locals, scope, diagnostics),
                None => {},
            }
        },
    }
}

/// Qualifies a list of expressions.
fn qualify_exprs(xs: &mut Vec<Expr>, module: &Vec<String>, locals: &LocalNames, scope: &ScopeNames, diagnostics: &mut Vec<Diagnostic>)
    requires
        locals.wf(),
    ensures
        dependency_errors_added(old(diagnostics)@, final(diagnostics)@),
        exprs_qualified(old(xs)@, final(xs)@, module@, *locals, *scope),
        decreases *old(xs),
{
    let mut i: usize = 0;
    while i < xs.len()
        invariant
            dependency_errors_added(old(diagnostics)@, diagnostics@),
            0 <= i <= xs@.len(),
            locals.wf(),
            xs@.len() == old(xs)@.len(),
            forall|k: int| i <= k < xs@.len() ==> xs@[k] == old(xs)@[k],
            exprs_qualified(old(xs)@.take(i as int), xs@.take(i as int), module@, *locals, *scope),
        decreases xs@.len() - i,
    {
        let ghost prefix = xs@.take(i as int);
        let mut x = xs.remove(i);
        proof {
            assert(x == old(xs)@[i as int]);
        }
        qualify_expr(&mut x, module, locals, scope, diagnostics);
        let ghost done = x;
        xs.insert(i, x);
        proof {
            assert(prefix =~= xs@.take(i as int));
            lemma_exprs_qualified_push(old(xs)@.take(i as int), prefix, old(xs)@[i as int], done, module@, *locals, *scope);
            assert(old(xs)@.take(i as int).push(old(xs)@[i as int]) =~= old(xs)@.take(i + 1));
            assert(prefix.push(done) =~= xs@.take(i + 1));
        }
        i = i + 1;
    }
    proof {
        assert(old(xs)@.take(old(xs)@.len() as int) =~= old(xs)@);
        assert(xs@.take(xs@.len() as int) =~= xs@);
    }
}

/// Qualifies the values of field initializers.
fn qualify_field_exprs(xs: &mut Vec<FieldExpr>, module: &Vec<String>, locals: &LocalNames, scope: &ScopeNames, diagnostics: &mut Vec<Diagnostic>)
    requires
        locals.wf(),
    ensures
        dependency_errors_added(old(diagnostics)@, final(diagnostics)@),
        field_exprs_qualified(old(xs)@, final(xs)@, module@, *locals, *scope),
        decreases *old(xs),
{
    let mut i: usize = 0;
    while i < xs.len()
        invariant
            dependency_errors_added(old(diagnostics)@, diagnostics@),
            0 <= i <= xs@.len(),
            locals.wf(),
            xs@.len() == old(xs)@.len(),
            forall|k: int| i <= k < xs@.len() ==> xs@[k] == old(xs)@[k],
            field_exprs_qualified(old(xs)@.take(i as int), xs@.take(i as int), module@, *locals, *scope),
        decreases xs@.len() - i,
    {
        let ghost prefix = xs@.take(i as int);
        let mut x = xs.remove(i);
        proof {
            assert(x == old(xs)@[i as int]);
        }
        qualify_expr(&mut x.kind.expr, module, locals, scope, diagnostics);
        let ghost done = x;
        xs.insert(i, x);
        proof {
            assert(prefix =~= xs@.take(i as int));
            lemma_field_exprs_qualified_push(old(xs)@.take(i as int), prefix, old(xs)@[i as int], done, module@, *locals, *scope);
            assert(old(xs)@.take(i as int).push(old(xs)@[i as int]) =~= old(xs)@.take(i + 1));
            assert(prefix.push(done) =~= xs@.take(i + 1));
        }
        i = i + 1;
    }
    proof {
        assert(old(xs)@.take(old(xs)@.len() as int) =~= old(xs)@);
        assert(xs@.take(xs@.len() as int) =~= xs@);
    }
}

/// Qualifies the patterns and bodies of match arms.
fn qualify_arms(xs: &mut Vec<crate::ast::MatchArm>, module: &Vec<String>, locals: &LocalNames, scope: &ScopeNames, diagnostics: &mut Vec<Diagnostic>)
    requires
        locals.wf(),
    ensures
        dependency_errors_added(old(diagnostics)@, final(diagnostics)@),
        arms_qualified(old(xs)@, final(xs)@, module@, *locals, *scope),
        decreases *old(xs),
{
    let mut i: usize = 0;
    while i < xs.len()
        invariant
            dependency_errors_added(old(diagnostics)@, diagnostics@),
            0 <= i <= xs@.len(),
            locals.wf(),
            xs@.len() == old(xs)@.len(),
            forall|k: int| i <= k < xs@.len() ==> xs@[k] == old(xs)@[k],
            arms_qualified(old(xs)@.take(i as int), xs@.take(i as int), module@, *locals, *scope),
        decreases xs@.len() - i,
    {
        let ghost prefix = xs@.take(i as int);
        let mut x = xs.remove(i);
        proof {
            assert(x == old(xs)@[i as int]);
        }
        qualify_pat(&mut x.kind.pat, module, locals, scope, diagnostics);
        qualify_expr(&mut x.kind.body, module, locals, scope, diagnostics);
        let ghost done = x;
        xs.insert(i, x);
        proof {
            assert(prefix =~= xs@.take(i as int));
            lemma_arms_qualified_push(old(xs)@.take(i as int), prefix, old(xs)@[i as int], done, module@, *locals, *scope);
            assert(old(xs)@.take(i as int).push(old(xs)@[i as int]) =~= old(xs)@.take(i + 1));
            assert(prefix.push(done) =~= xs@.take(i + 1));
        }
        i = i + 1;
    }
    proof {
        assert(old(xs)@.take(old(xs)@.len() as int) =~= old(xs)@);
        assert(xs@.take(xs@.len() as int) =~= xs@);
    }
}

/// Qualifies the statements and tail of a block.
fn qualify_block(block: &mut Block, module: &Vec<String>, locals: &LocalNames, scope: &ScopeNames, diagnostics: &mut Vec<Diagnostic>)
    requires
        locals.wf(),
    ensures
        dependency_errors_added(old(diagnostics)@, final(diagnostics)@),
        block_qualified(*old(block), *final(block), module@, *locals, *scope),
    decreases *old(block),
{
    qualify_stmts(&mut block.kind.stmts, module, locals, scope, diagnostics);
    match &mut block.kind.tail {
        Some(tail) => qualify_expr(tail, module, locals, scope, diagnostics),
        None => {},
    }
}

/// Qualifies statements.
fn qualify_stmts(xs: &mut Vec<crate::ast::Stmt>, module: &Vec<String>, locals: &LocalNames, scope: &ScopeNames, diagnostics: &mut Vec<Diagnostic>)
    requires
        locals.wf(),
    ensures
        dependency_errors_added(old(diagnostics)@, final(diagnostics)@),
        stmts_qualified(old(xs)@, final(xs)@, module@, *locals, *scope),
        decreases *old(xs),
{
    let mut i: usize = 0;
    while i < xs.len()
        invariant
            dependency_errors_added(old(diagnostics)@, diagnostics@),
            0 <= i <= xs@.len(),
            locals.wf(),
            xs@.len() == old(xs)@.len(),
            forall|k: int| i <= k < xs@.len() ==> xs@[k] == old(xs)@[k],
            stmts_qualified(old(xs)@.take(i as int), xs@.take(i as int), module@, *locals, *scope),
        decreases xs@.len() - i,
    {
        let ghost prefix = xs@.take(i as int);
        let mut x = xs.remove(i);
        proof {
            assert(x == old(xs)@[i as int]);
        }
        match &mut x.kind {
            StmtKind::Let(let_stmt) => {
                match &mut let_stmt.kind.ty {
                    Some(t) => qualify_ty(t, module, locals, scope, diagnostics),
                    None => {},
                }
                match &mut let_stmt.kind.init {
                    Some(init) => qualify_expr(init, module, locals, scope, diagnostics),
                    None => {},
                }
            },
            StmtKind::Expr(e) => qualify_expr(e, module, locals, scope, diagnostics),
            StmtKind::Semi(e) => qualify_expr(e, module, locals, scope, diagnostics),
        }
        let ghost done = x;
        xs.insert(i, x);
        proof {
            assert(prefix =~= xs@.take(i as int));
            lemma_stmts_qualified_push(old(xs)@.take(i as int), prefix, old(xs)@[i as int], done, module@, *locals, *scope);
            assert(old(xs)@.take(i as int).push(old(xs)@[i as int]) =~= old(xs)@.take(i + 1));
            assert(prefix.push(done) =~= xs@.take(i + 1));
        }
        i = i + 1;
    }
    proof {
        assert(old(xs)@.take(old(xs)@.len() as int) =~= old(xs)@);
        assert(xs@.take(xs@.len() as int) =~= xs@);
    }
}

/// Qualifies the arguments of an enum constructor.
fn qualify_enum_ctor_args(args: &mut EnumCtorArgs, module: &Vec<String>, locals: &LocalNames, scope: &ScopeNames, diagnostics: &mut Vec<Diagnostic>)
    requires
        locals.wf(),
    ensures
        dependency_errors_added(old(diagnostics)@, final(diagnostics)@),
        ctor_args_qualified(*old(args), *final(args), module@, *locals, *scope),
    decreases *old(args),
{
    match &mut args.kind {
        EnumCtorArgsKind::Unit => {},
        EnumCtorArgsKind::Tuple(exprs) => qualify_exprs(exprs, module, locals, scope, diagnostics),
        EnumCtorArgsKind::Struct(fields) => qualify_field_exprs(fields, module, locals, scope, diagnostics),
    }
}

/// Qualifies the enum and struct paths of a pattern.
fn qualify_pat(pat: &mut Pat, module: &Vec<String>, locals: &LocalNames, scope: &ScopeNames, diagnostics: &mut Vec<Diagnostic>)
    requires
        locals.wf(),
    ensures
        dependency_errors_added(old(diagnostics)@, final(diagnostics)@),
        pat_qualified(*old(pat), *final(pat), module@, *locals, *scope),
    decreases *old(pat),
{
    match &mut pat.kind {
        PatKind::Wildcard | PatKind::Binding { .. } | PatKind::Unit | PatKind::BoolLit(_) | PatKind::IntLit(_) => {},
        PatKind::EnumVariant { enum_path, args, .. } => {
            qualify_ctor_path(enum_path, module, locals, scope, diagnostics);
            qualify_enum_pat_args(args, module, locals, scope, diagnostics);
        },
        PatKind::Struct { path, fields } => {
            qualify_type_path(path, module, locals, scope, diagnostics);
            qualify_field_pats(fields, module, locals, scope, diagnostics);
        },
    }
}

/// Qualifies the sub-patterns of a variant pattern.
fn qualify_enum_pat_args(args: &mut EnumPatArgs, module: &Vec<String>, locals: &LocalNames, scope: &ScopeNames, diagnostics: &mut Vec<Diagnostic>)
    requires
        locals.wf(),
    ensures
        dependency_errors_added(old(diagnostics)@, final(diagnostics)@),
        pat_args_qualified(*old(args), *final(args), module@, *locals, *scope),
    decreases *old(args),
{
    match &mut args.kind {
        EnumPatArgsKind::Unit => {},
        EnumPatArgsKind::Tuple(pats) => qualify_pats(pats, module, locals, scope, diagnostics),
        EnumPatArgsKind::Struct(fields) => qualify_field_pats(fields, module, locals, scope, diagnostics),
    }
}

/// Qualifies a list of patterns.
fn qualify_pats(xs: &mut Vec<Pat>, module: &Vec<String>, locals: &LocalNames, scope: &ScopeNames, diagnostics: &mut Vec<Diagnostic>)
    requires
        locals.wf(),
    ensures
        dependency_errors_added(old(diagnostics)@, final(diagnostics)@),
        pats_qualified(old(xs)@, final(xs)@, module@, *locals, *scope),
        decreases *old(xs),
{
    let mut i: usize = 0;
    while i < xs.len()
        invariant
            dependency_errors_added(old(diagnostics)@, diagnostics@),
            0 <= i <= xs@.len(),
            locals.wf(),
            xs@.len() == old(xs)@.len(),
            forall|k: int| i <= k < xs@.len() ==> xs@[k] == old(xs)@[k],
            pats_qualified(old(xs)@.take(i as int), xs@.take(i as int), module@, *locals, *scope),
        decreases xs@.len() - i,
    {
        let ghost prefix = xs@.take(i as int);
        let mut x = xs.remove(i);
        proof {
            assert(x == old(xs)@[i as int]);
        }
        qualify_pat(&mut x, module, locals, scope, diagnostics);
        let ghost done = x;
        xs.insert(i, x);
        proof {
            assert(prefix =~= xs@.take(i as int));
            lemma_pats_qualified_push(old(xs)@.take(i as int), prefix, old(xs)@[i as int], done, module@, *locals, *scope);
            assert(old(xs)@.take(i as int).push(old(xs)@[i as int]) =~= old(xs)@.take(i + 1));
            assert(prefix.push(done) =~= xs@.take(i + 1));
        }
        i = i + 1;
    }
    proof {
        assert(old(xs)@.take(old(xs)@.len() as int) =~= old(xs)@);
        assert(xs@.take(xs@.len() as int) =~= xs@);
    }
}

/// Qualifies the sub-patterns of field patterns.
fn qualify_field_pats(xs: &mut Vec<FieldPat>, module: &Vec<String>, locals: &LocalNames, scope: &ScopeNames, diagnostics: &mut Vec<Diagnostic>)
    requires
        locals.wf(),
    ensures
        dependency_errors_added(old(diagnostics)@, final(diagnostics)@),
        field_pats_qualified(old(xs)@, final(xs)@, module@, *locals, *scope),
        decreases *old(xs),
{
    let mut i: usize = 0;
    while i < xs.len()
        invariant
            dependency_errors_added(old(diagnostics)@, diagnostics@),
            0 <= i <= xs@.len(),
            locals.wf(),
            xs@.len() == old(xs)@.len(),
            forall|k: int| i <= k < xs@.len() ==> xs@[k] == old(xs)@[k],
            field_pats_qualified(old(xs)@.take(i as int), xs@.take(i as int), module@, *locals, *scope),
        decreases xs@.len() - i,
    {
        let ghost prefix = xs@.take(i as int);
        let mut x = xs.remove(i);
        proof {
            assert(x == old(xs)@[i as int]);
        }
        qualify_pat(&mut x.kind.pat, module, locals, scope, diagnostics);
        let ghost done = x;
        xs.insert(i, x);
        proof {
            assert(prefix =~= xs@.take(i as int));
            lemma_field_pats_qualified_push(old(xs)@.take(i as int), prefix, old(xs)@[i as int], done, module@, *locals, *scope);
            assert(old(xs)@.take(i as int).push(old(xs)@[i as int]) =~= old(xs)@.take(i + 1));
            assert(prefix.push(done) =~= xs@.take(i + 1));
        }
        i = i + 1;
    }
    proof {
        assert(old(xs)@.take(old(xs)@.len() as int) =~= old(xs)@);
        assert(xs@.take(xs@.len() as int) =~= xs@);
    }
}

// ---------------------------------------------------------------------
// Moving spans into the merged span space
// ---------------------------------------------------------------------
// What moving a node into the merged span space does: every span inside
// it moves by `base`, and nothing else changes.

/// Whether the path `n` is `o` with its span moved by `base`.
spec fn path_shifted(o: Path, n: Path, base: usize) -> bool {
    n.span == shift_span_spec(o.span, base) && n.kind == o.kind
}

/// Whether the type `n` is `o` with every span inside it moved by `base`.
spec fn ty_shifted(o: Ty, n: Ty, base: usize) -> bool
    decreases o, 0nat,
{
    n.span == shift_span_spec(o.span, base) && match (o.kind, n.kind) {
        (TyKind::Unit, TyKind::Unit) | (TyKind::Bool, TyKind::Bool) | (TyKind::Never, TyKind::Never)
        | (TyKind::SelfTy, TyKind::SelfTy) => true,
        (TyKind::Int(a), TyKind::Int(b)) => a == b,
        (TyKind::Path { path: op, args: oa }, TyKind::Path { path: np, args: na }) =>
            path_shifted(op, np, base) && args_shifted(oa@, na@, base),
        (TyKind::Array { elem: oe, len: ol }, TyKind::Array { elem: ne, len: nl }) =>
            ty_shifted(*oe, *ne, base) && const_shifted(ol, nl, base),
        (TyKind::Ref { mutability: om, ty: ot }, TyKind::Ref { mutability: nm, ty: nt }) =>
            om == nm && ty_shifted(*ot, *nt, base),
        (TyKind::Fn { params: op, ret: orr }, TyKind::Fn { params: np, ret: nr }) =>
            tys_shifted(op@, np@, base) && ty_shifted(*orr, *nr, base),
        _ => false,
    }
}

/// Whether each type of `n` is the one of `o` moved.
spec fn tys_shifted(o: Seq<Ty>, n: Seq<Ty>, base: usize) -> bool
    decreases o, 0nat,
{
    if o.len() != n.len() {
        false
    } else if o.len() == 0 {
        true
    } else {
        tys_shifted(o.subrange(0, o.len() - 1), n.subrange(0, n.len() - 1), base)
            && ty_shifted(o[o.len() - 1], n[n.len() - 1], base)
    }
}

proof fn lemma_tys_shifted_push(o: Seq<Ty>, n: Seq<Ty>, a: Ty, b: Ty, base: usize)
    requires
        tys_shifted(o, n, base),
        ty_shifted(a, b, base),
    ensures
        tys_shifted(o.push(a), n.push(b), base),
{
    assert(o.push(a).subrange(0, o.len() as int) =~= o);
    assert(n.push(b).subrange(0, n.len() as int) =~= n);
}

/// Whether each generic argument of `n` is the one of `o` moved.
spec fn args_shifted(o: Seq<GenericArg>, n: Seq<GenericArg>, base: usize) -> bool
    decreases o, 0nat,
{
    if o.len() != n.len() {
        false
    } else if o.len() == 0 {
        true
    } else {
        args_shifted(o.subrange(0, o.len() - 1), n.subrange(0, n.len() - 1), base)
            && arg_shifted(o[o.len() - 1], n[n.len() - 1], base)
    }
}

proof fn lemma_args_shifted_push(o: Seq<GenericArg>, n: Seq<GenericArg>, a: GenericArg, b: GenericArg, base: usize)
    requires
        args_shifted(o, n, base),
        arg_shifted(a, b, base),
    ensures
        args_shifted(o.push(a), n.push(b), base),
{
    assert(o.push(a).subrange(0, o.len() as int) =~= o);
    assert(n.push(b).subrange(0, n.len() as int) =~= n);
}

/// Whether the generic argument `n` is `o` moved.
spec fn arg_shifted(o: GenericArg, n: GenericArg, base: usize) -> bool
    decreases o, 0nat,
{
    n.span == shift_span_spec(o.span, base) && match (o.kind, n.kind) {
        (GenericArgKind::Ty(a), GenericArgKind::Ty(b)) => ty_shifted(a, b, base),
        (GenericArgKind::Const(a), GenericArgKind::Const(b)) => const_shifted(a, b, base),
        _ => false,
    }
}

/// Whether the constant expression `n` is `o` moved.
spec fn const_shifted(o: ConstExpr, n: ConstExpr, base: usize) -> bool
    decreases o, 0nat,
{
    n.span == shift_span_spec(o.span, base) && match (o.kind, n.kind) {
        (ConstExprKind::IntLit(a), ConstExprKind::IntLit(b)) => a == b,
        (ConstExprKind::Param(a), ConstExprKind::Param(b)) => a == b,
        (ConstExprKind::Path(a), ConstExprKind::Path(b)) => path_shifted(a, b, base),
        (ConstExprKind::AssocConst { ty: ot, interface: oi, name: on }, ConstExprKind::AssocConst { ty: nt, interface: ni, name: nn }) =>
            ty_shifted(*ot, *nt, base) && on == nn && path_shifted(oi, ni, base),
        (ConstExprKind::Unary { op: oo, expr: oe }, ConstExprKind::Unary { op: no, expr: ne }) =>
            oo == no && const_shifted(*oe, *ne, base),
        (ConstExprKind::Binary { op: oo, lhs: ol, rhs: orr }, ConstExprKind::Binary { op: no, lhs: nl, rhs: nr }) =>
            oo == no && const_shifted(*ol, *nl, base) && const_shifted(*orr, *nr, base),
        (ConstExprKind::Cast { expr: oe, ty: ot }, ConstExprKind::Cast { expr: ne, ty: nt }) =>
            ot == nt && const_shifted(*oe, *ne, base),
        _ => false,
    }
}

/// Whether the interface reference `n` is `o` moved.
spec fn interface_ref_shifted(o: InterfaceRef, n: InterfaceRef, base: usize) -> bool {
    &&& n.span == shift_span_spec(o.span, base)
    &&& path_shifted(o.kind.path, n.kind.path, base)
    &&& args_shifted(o.kind.args@, n.kind.args@, base)
}

/// Whether the expression `n` is `o` with every span inside it moved by
/// `base`.
spec fn expr_shifted(o: Expr, n: Expr, base: usize) -> bool
    decreases o, 0nat,
{
    n.span == shift_span_spec(o.span, base) && match (o.kind, n.kind) {
        (ExprKind::UnitLit, ExprKind::UnitLit) | (ExprKind::Todo, ExprKind::Todo) => true,
        (ExprKind::BoolLit(a), ExprKind::BoolLit(b)) => a == b,
        (ExprKind::IntLit(a), ExprKind::IntLit(b)) => a == b,
        (ExprKind::Var(a), ExprKind::Var(b)) => a == b,
        (ExprKind::Unary { op: oo, expr: oe }, ExprKind::Unary { op: no, expr: ne }) =>
            oo == no && expr_shifted(*oe, *ne, base),
        (ExprKind::Binary { op: oo, lhs: ol, rhs: orr }, ExprKind::Binary { op: no, lhs: nl, rhs: nr }) =>
            oo == no && expr_shifted(*ol, *nl, base) && expr_shifted(*orr, *nr, base),
        (ExprKind::Assign { lhs: ol, rhs: orr }, ExprKind::Assign { lhs: nl, rhs: nr }) =>
            expr_shifted(*ol, *nl, base) && expr_shifted(*orr, *nr, base),
        (ExprKind::Call { callee: oc, args: oa }, ExprKind::Call { callee: nc, args: na }) =>
            expr_shifted(*oc, *nc, base) && exprs_shifted(oa@, na@, base),
        (ExprKind::MethodCall { receiver: orc, method: om, args: oa }, ExprKind::MethodCall { receiver: nrc, method: nm, args: na }) =>
            om == nm && expr_shifted(*orc, *nrc, base) && exprs_shifted(oa@, na@, base),
        (ExprKind::StructLit { path: op, fields: of }, ExprKind::StructLit { path: np, fields: nf }) =>
            path_shifted(op, np, base) && field_exprs_shifted(of@, nf@, base),
        (ExprKind::EnumCtor { enum_path: op, variant: ov, args: oa }, ExprKind::EnumCtor { enum_path: np, variant: nv, args: na }) =>
            ov == nv && path_shifted(op, np, base) && ctor_args_shifted(oa, na, base),
        (ExprKind::Field { base: ob, name: on }, ExprKind::Field { base: nb, name: nn }) =>
            on == nn && expr_shifted(*ob, *nb, base),
        (ExprKind::Index { base: ob, index: oi }, ExprKind::Index { base: nb, index: ni }) =>
            expr_shifted(*ob, *nb, base) && expr_shifted(*oi, *ni, base),
        (ExprKind::Match { scrutinee: os, arms: oa }, ExprKind::Match { scrutinee: ns, arms: na }) =>
            expr_shifted(*os, *ns, base) && arms_shifted(oa@, na@, base),
        (ExprKind::If { cond: oc, then_branch: ot, else_branch: oe }, ExprKind::If { cond: nc, then_branch: nt, else_branch: ne }) =>
            expr_shifted(*oc, *nc, base) && block_shifted(ot, nt, base) && match (oe, ne) {
                (Some(a), Some(b)) => block_shifted(a, b, base),
                (None, None) => true,
                _ => false,
            },
        (ExprKind::Block(a), ExprKind::Block(b)) => block_shifted(a, b, base),
        (ExprKind::Return(a), ExprKind::Return(b)) => match (a, b) {
            (Some(x), Some(y)) => expr_shifted(*x, *y, base),
            (None, None) => true,
            _ => false,
        },
        _ => false,
    }
}

/// Whether the block `n` is `o` moved.
spec fn block_shifted(o: Block, n: Block, base: usize) -> bool
    decreases o, 0nat,
{
    n.span == shift_span_spec(o.span, base) && stmts_shifted(o.kind.stmts@, n.kind.stmts@, base) && match (o.kind.tail, n.kind.tail) {
        (Some(a), Some(b)) => expr_shifted(*a, *b, base),
        (None, None) => true,
        _ => false,
    }
}

/// Whether the statement `n` is `o` moved.
spec fn stmt_shifted(o: Stmt, n: Stmt, base: usize) -> bool
    decreases o, 0nat,
{
    n.span == shift_span_spec(o.span, base) && match (o.kind, n.kind) {
        (StmtKind::Let(a), StmtKind::Let(b)) => b.span == shift_span_spec(a.span, base) && b.kind.name == a.kind.name
            && match (a.kind.ty, b.kind.ty) {
                (Some(x), Some(y)) => ty_shifted(x, y, base),
                (None, None) => true,
                _ => false,
            } && match (a.kind.init, b.kind.init) {
                (Some(x), Some(y)) => expr_shifted(x, y, base),
                (None, None) => true,
                _ => false,
            },
        (StmtKind::Expr(a), StmtKind::Expr(b)) => expr_shifted(a, b, base),
        (StmtKind::Semi(a), StmtKind::Semi(b)) => expr_shifted(a, b, base),
        _ => false,
    }
}

/// Whether the match arm `n` is `o` moved.
spec fn arm_shifted(o: MatchArm, n: MatchArm, base: usize) -> bool
    decreases o, 0nat,
{
    n.span == shift_span_spec(o.span, base) && pat_shifted(o.kind.pat, n.kind.pat, base) && expr_shifted(o.kind.body, n.kind.body, base)
}

/// Whether the field initializer `n` is `o` moved.
spec fn field_expr_shifted(o: FieldExpr, n: FieldExpr, base: usize) -> bool
    decreases o, 0nat,
{
    n.span == shift_span_spec(o.span, base) && n.kind.name == o.kind.name && expr_shifted(o.kind.expr, n.kind.expr, base)
}

/// Whether the constructor arguments `n` are `o` moved.
spec fn ctor_args_shifted(o: EnumCtorArgs, n: EnumCtorArgs, base: usize) -> bool
    decreases o, 0nat,
{
    n.span == shift_span_spec(o.span, base) && match (o.kind, n.kind) {
        (EnumCtorArgsKind::Unit, EnumCtorArgsKind::Unit) => true,
        (EnumCtorArgsKind::Tuple(a), EnumCtorArgsKind::Tuple(b)) => exprs_shifted(a@, b@, base),
        (EnumCtorArgsKind::Struct(a), EnumCtorArgsKind::Struct(b)) => field_exprs_shifted(a@, b@, base),
        _ => false,
    }
}

/// Whether the pattern `n` is `o` moved.
spec fn pat_shifted(o: Pat, n: Pat, base: usize) -> bool
    decreases o, 0nat,
{
    n.span == shift_span_spec(o.span, base) && match (o.kind, n.kind) {
        (PatKind::Wildcard, PatKind::Wildcard) | (PatKind::Unit, PatKind::Unit) => true,
        (PatKind::Binding { name: a }, PatKind::Binding { name: b }) => a == b,
        (PatKind::BoolLit(a), PatKind::BoolLit(b)) => a == b,
        (PatKind::IntLit(a), PatKind::IntLit(b)) => a == b,
        (PatKind::EnumVariant { enum_path: op, variant: ov, args: oa }, PatKind::EnumVariant { enum_path: np, variant: nv, args: na }) =>
            ov == nv && path_shifted(op, np, base) && pat_args_shifted(oa, na, base),
        (PatKind::Struct { path: op, fields: of }, PatKind::Struct { path: np, fields: nf }) =>
            path_shifted(op, np, base) && field_pats_shifted(of@, nf@, base),
        _ => false,
    }
}

/// Whether the variant pattern arguments `n` are `o` moved.
spec fn pat_args_shifted(o: EnumPatArgs, n: EnumPatArgs, base: usize) -> bool
    decreases o, 0nat,
{
    n.span == shift_span_spec(o.span, base) && match (o.kind, n.kind) {
        (EnumPatArgsKind::Unit, EnumPatArgsKind::Unit) => true,
        (EnumPatArgsKind::Tuple(a), EnumPatArgsKind::Tuple(b)) => pats_shifted(a@, b@, base),
        (EnumPatArgsKind::Struct(a), EnumPatArgsKind::Struct(b)) => field_pats_shifted(a@, b@, base),
        _ => false,
    }
}

/// Whether the field pattern `n` is `o` moved.
spec fn field_pat_shifted(o: FieldPat, n: FieldPat, base: usize) -> bool
    decreases o, 0nat,
{
    n.span == shift_span_spec(o.span, base) && n.kind.name == o.kind.name && pat_shifted(o.kind.pat, n.kind.pat, base)
}

/// Whether each element of `n` is the one of `o` moved.
spec fn exprs_shifted(o: Seq<Expr>, n: Seq<Expr>, base: usize) -> bool
    decreases o, 0nat,
{
    if o.len() != n.len() {
        false
    } else if o.len() == 0 {
        true
    } else {
        exprs_shifted(o.subrange(0, o.len() - 1), n.subrange(0, n.len() - 1), base)
            && expr_shifted(o[o.len() - 1], n[n.len() - 1], base)
    }
}

proof fn lemma_exprs_shifted_push(o: Seq<Expr>, n: Seq<Expr>, a: Expr, b: Expr, base: usize)
    requires
        exprs_shifted(o, n, base),
        expr_shifted(a, b, base),
    ensures
        exprs_shifted(o.push(a), n.push(b), base),
{
    assert(o.push(a).subrange(0, o.len() as int) =~= o);
    assert(n.push(b).subrange(0, n.len() as int) =~= n);
}

/// Whether each element of `n` is the one of `o` moved.
spec fn stmts_shifted(o: Seq<Stmt>, n: Seq<Stmt>, base: usize) -> bool
    decreases o, 0nat,
{
    if o.len() != n.len() {
        false
    } else if o.len() == 0 {
        true
    } else {
        stmts_shifted(o.subrange(0, o.len() - 1), n.subrange(0, n.len() - 1), base)
            && stmt_shifted(o[o.len() - 1], n[n.len() - 1], base)
    }
}

proof fn lemma_stmts_shifted_push(o: Seq<Stmt>, n: Seq<Stmt>, a: Stmt, b: Stmt, base: usize)
    requires
        stmts_shifted(o, n, base),
        stmt_shifted(a, b, base),
    ensures
        stmts_shifted(o.push(a), n.push(b), base),
{
    assert(o.push(a).subrange(0, o.len() as int) =~= o);
    assert(n.push(b).subrange(0, n.len() as int) =~= n);
}

/// Whether each element of `n` is the one of `o` moved.
spec fn arms_shifted(o: Seq<MatchArm>, n: Seq<MatchArm>, base: usize) -> bool
    decreases o, 0nat,
{
    if o.len() != n.len() {
        false
    } else if o.len() == 0 {
        true
    } else {
        arms_shifted(o.subrange(0, o.len() - 1), n.subrange(0, n.len() - 1), base)
            && arm_shifted(o[o.len() - 1], n[n.len() - 1], base)
    }
}

proof fn lemma_arms_shifted_push(o: Seq<MatchArm>, n: Seq<MatchArm>, a: MatchArm, b: MatchArm, base: usize)
    requires
        arms_shifted(o, n, base),
        arm_shifted(a, b, base),
    ensures
        arms_shifted(o.push(a), n.push(b), base),
{
    assert(o.push(a).subrange(0, o.len() as int) =~= o);
    assert(n.push(b).subrange(0, n.len() as int) =~= n);
}

/// Whether each element of `n` is the one of `o` moved.
spec fn field_exprs_shifted(o: Seq<FieldExpr>, n: Seq<FieldExpr>, base: usize) -> bool
    decreases o, 0nat,
{
    if o.len() != n.len() {
        false
    } else if o.len() == 0 {
        true
    } else {
        field_exprs_shifted(o.subrange(0, o.len() - 1), n.subrange(0, n.len() - 1), base)
            && field_expr_shifted(o[o.len() - 1], n[n.len() - 1], base)
    }
}

proof fn lemma_field_exprs_shifted_push(o: Seq<FieldExpr>, n: Seq<FieldExpr>, a: FieldExpr, b: FieldExpr, base: usize)
    requires
        field_exprs_shifted(o, n, base),
        field_expr_shifted(a, b, base),
    ensures
        field_exprs_shifted(o.push(a), n.push(b), base),
{
    assert(o.push(a).subrange(0, o.len() as int) =~= o);
    assert(n.push(b).subrange(0, n.len() as int) =~= n);
}

/// Whether each element of `n` is the one of `o` moved.
spec fn pats_shifted(o: Seq<Pat>, n: Seq<Pat>, base: usize) -> bool
    decreases o, 0nat,
{
    if o.len() != n.len() {
        false
    } else if o.len() == 0 {
        true
    } else {
        pats_shifted(o.subrange(0, o.len() - 1), n.subrange(0, n.len() - 1), base)
            && pat_shifted(o[o.len() - 1], n[n.len() - 1], base)
    }
}

proof fn lemma_pats_shifted_push(o: Seq<Pat>, n: Seq<Pat>, a: Pat, b: Pat, base: usize)
    requires
        pats_shifted(o, n, base),
        pat_shifted(a, b, base),
    ensures
        pats_shifted(o.push(a), n.push(b), base),
{
    assert(o.push(a).subrange(0, o.len() as int) =~= o);
    assert(n.push(b).subrange(0, n.len() as int) =~= n);
}

/// Whether each element of `n` is the one of `o` moved.
spec fn field_pats_shifted(o: Seq<FieldPat>, n: Seq<FieldPat>, base: usize) -> bool
    decreases o, 0nat,
{
    if o.len() != n.len() {
        false
    } else if o.len() == 0 {
        true
    } else {
        field_pats_shifted(o.subrange(0, o.len() - 1), n.subrange(0, n.len() - 1), base)
            && field_pat_shifted(o[o.len() - 1], n[n.len() - 1], base)
    }
}

proof fn lemma_field_pats_shifted_push(o: Seq<FieldPat>, n: Seq<FieldPat>, a: FieldPat, b: FieldPat, base: usize)
    requires
        field_pats_shifted(o, n, base),
        field_pat_shifted(a, b, base),
    ensures
        field_pats_shifted(o.push(a), n.push(b), base),
{
    assert(o.push(a).subrange(0, o.len() as int) =~= o);
    assert(n.push(b).subrange(0, n.len() as int) =~= n);
}

/// Whether the `where` predicate `n` is `o` moved.
spec fn where_predicate_shifted(o: WherePredicate, n: WherePredicate, base: usize) -> bool {
    n.span == shift_span_spec(o.span, base) && match (o.kind, n.kind) {
        (WherePredicateKind::Implements { ty: ot, interface: oi }, WherePredicateKind::Implements { ty: nt, interface: ni }) =>
            ty_shifted(ot, nt, base) && interface_ref_shifted(oi, ni, base),
        (WherePredicateKind::ConstEq { lhs: ol, rhs: orr }, WherePredicateKind::ConstEq { lhs: nl, rhs: nr }) =>
            const_shifted(ol, nl, base) && const_shifted(orr, nr, base),
        _ => false,
    }
}

/// Whether each interface reference of `n` is the one of `o` moved.
spec fn interface_refs_shifted(o: Seq<InterfaceRef>, n: Seq<InterfaceRef>, base: usize) -> bool {
    o.len() == n.len() && forall|k: int| 0 <= k < o.len() ==> interface_ref_shifted(#[trigger] o[k], n[k], base)
}

/// Whether the generic parameter `n` is `o` moved.
spec fn generic_param_shifted(o: GenericParam, n: GenericParam, base: usize) -> bool {
    n.span == shift_span_spec(o.span, base) && match (o.kind, n.kind) {
        (GenericParamKind::Type { name: on, bounds: ob }, GenericParamKind::Type { name: nn, bounds: nb }) =>
            on == nn && interface_refs_shifted(ob@, nb@, base),
        (GenericParamKind::Const { name: on, ty: ot }, GenericParamKind::Const { name: nn, ty: nt }) =>
            on == nn && ot == nt,
        _ => false,
    }
}

/// Whether the parameter `n` is `o` moved.
spec fn param_shifted(o: Param, n: Param, base: usize) -> bool {
    n.span == shift_span_spec(o.span, base) && n.kind.name == o.kind.name && ty_shifted(o.kind.ty, n.kind.ty, base)
}

/// Whether the field `n` is `o` moved.
spec fn field_shifted(o: Field, n: Field, base: usize) -> bool {
    n.span == shift_span_spec(o.span, base) && n.kind.name == o.kind.name && ty_shifted(o.kind.ty, n.kind.ty, base)
}

/// Whether each field of `n` is the one of `o` moved.
spec fn fields_shifted(o: Seq<Field>, n: Seq<Field>, base: usize) -> bool {
    o.len() == n.len() && forall|k: int| 0 <= k < o.len() ==> #[trigger] field_shifted(o[k], n[k], base)
}

/// Whether the variant payload `n` is `o` moved.
spec fn payload_shifted(o: VariantPayload, n: VariantPayload, base: usize) -> bool {
    n.span == shift_span_spec(o.span, base) && match (o.kind, n.kind) {
        (VariantPayloadKind::Unit, VariantPayloadKind::Unit) => true,
        (VariantPayloadKind::Tuple(a), VariantPayloadKind::Tuple(b)) => tys_shifted(a@, b@, base),
        (VariantPayloadKind::Struct(a), VariantPayloadKind::Struct(b)) => fields_shifted(a@, b@, base),
        _ => false,
    }
}

/// Whether the enum variant `n` is `o` moved.
spec fn variant_shifted(o: EnumVariant, n: EnumVariant, base: usize) -> bool {
    n.span == shift_span_spec(o.span, base) && n.kind.name == o.kind.name && payload_shifted(o.kind.payload, n.kind.payload, base)
        && match (o.kind.discriminant, n.kind.discriminant) {
            (Some(a), Some(b)) => const_shifted(a, b, base),
            (None, None) => true,
            _ => false,
        }
}

/// Whether each generic parameter of `n` is the one of `o` moved.
spec fn generic_params_shifted(o: Seq<GenericParam>, n: Seq<GenericParam>, base: usize) -> bool {
    o.len() == n.len() && forall|k: int| 0 <= k < o.len() ==> #[trigger] generic_param_shifted(o[k], n[k], base)
}

/// Whether each parameter of `n` is the one of `o` moved.
spec fn params_shifted(o: Seq<Param>, n: Seq<Param>, base: usize) -> bool {
    o.len() == n.len() && forall|k: int| 0 <= k < o.len() ==> #[trigger] param_shifted(o[k], n[k], base)
}

/// Whether the method signature `n` is `o` moved.
spec fn method_sig_shifted(o: MethodSig, n: MethodSig, base: usize) -> bool {
    &&& n.span == shift_span_spec(o.span, base)
    &&& n.kind.name == o.kind.name
    &&& generic_params_shifted(o.kind.generics@, n.kind.generics@, base)
    &&& match (o.kind.receiver, n.kind.receiver) {
        (Some(a), Some(b)) => b.span == shift_span_spec(a.span, base) && b.kind == a.kind,
        (None, None) => true,
        _ => false,
    }
    &&& params_shifted(o.kind.params@, n.kind.params@, base)
    &&& ty_shifted(o.kind.ret, n.kind.ret, base)
}

/// Whether the interface member `n` is `o` moved.
spec fn interface_member_shifted(o: InterfaceMember, n: InterfaceMember, base: usize) -> bool {
    n.span == shift_span_spec(o.span, base) && match (o.kind, n.kind) {
        (InterfaceMemberKind::AssocConst(a), InterfaceMemberKind::AssocConst(b)) =>
            b.span == shift_span_spec(a.span, base) && b.kind.name == a.kind.name && b.kind.ty == a.kind.ty
                && match (a.kind.default, b.kind.default) {
                    (Some(x), Some(y)) => const_shifted(x, y, base),
                    (None, None) => true,
                    _ => false,
                },
        (InterfaceMemberKind::Method(a), InterfaceMemberKind::Method(b)) => method_sig_shifted(a, b, base),
        _ => false,
    }
}

/// Whether the impl member `n` is `o` moved.
spec fn impl_member_shifted(o: ImplMember, n: ImplMember, base: usize) -> bool {
    n.span == shift_span_spec(o.span, base) && match (o.kind, n.kind) {
        (ImplMemberKind::AssocConst(a), ImplMemberKind::AssocConst(b)) =>
            b.span == shift_span_spec(a.span, base) && b.kind.name == a.kind.name && b.kind.ty == a.kind.ty
                && const_shifted(a.kind.expr, b.kind.expr, base),
        (ImplMemberKind::Method(a), ImplMemberKind::Method(b)) =>
            b.span == shift_span_spec(a.span, base) && method_sig_shifted(a.kind.sig, b.kind.sig, base)
                && expr_shifted(a.kind.body, b.kind.body, base),
        _ => false,
    }
}

/// Whether each `where` predicate of `n` is the one of `o` moved.
spec fn where_predicates_shifted(o: Seq<WherePredicate>, n: Seq<WherePredicate>, base: usize) -> bool {
    o.len() == n.len() && forall|k: int| 0 <= k < o.len() ==> #[trigger] where_predicate_shifted(o[k], n[k], base)
}

/// Whether each variant of `n` is the one of `o` moved.
spec fn variants_shifted(o: Seq<EnumVariant>, n: Seq<EnumVariant>, base: usize) -> bool {
    o.len() == n.len() && forall|k: int| 0 <= k < o.len() ==> #[trigger] variant_shifted(o[k], n[k], base)
}

/// Whether each interface member of `n` is the one of `o` moved.
spec fn interface_members_shifted(o: Seq<InterfaceMember>, n: Seq<InterfaceMember>, base: usize) -> bool {
    o.len() == n.len() && forall|k: int| 0 <= k < o.len() ==> #[trigger] interface_member_shifted(o[k], n[k], base)
}

/// Whether each impl member of `n` is the one of `o` moved.
spec fn impl_members_shifted(o: Seq<ImplMember>, n: Seq<ImplMember>, base: usize) -> bool {
    o.len() == n.len() && forall|k: int| 0 <= k < o.len() ==> #[trigger] impl_member_shifted(o[k], n[k], base)
}

/// Whether the item `n` is `o` with every span inside it moved by `base`,
/// and nothing else changed.
pub closed spec fn item_shifted(o: Item, n: Item, base: usize) -> bool {
    n.span == shift_span_spec(o.span, base) && match (o.kind, n.kind) {
        (ItemKind::Use(a), ItemKind::Use(b)) => b.span == shift_span_spec(a.span, base)
            && path_shifted(a.kind.path, b.kind.path, base),
        (ItemKind::Const(a), ItemKind::Const(b)) => b.span == shift_span_spec(a.span, base) && b.kind.name == a.kind.name
            && b.kind.ty == a.kind.ty && const_shifted(a.kind.expr, b.kind.expr, base),
        (ItemKind::Struct(a), ItemKind::Struct(b)) => b.span == shift_span_spec(a.span, base) && b.kind.name == a.kind.name
            && generic_params_shifted(a.kind.generics@, b.kind.generics@, base)
            && where_predicates_shifted(a.kind.where_predicates@, b.kind.where_predicates@, base)
            && fields_shifted(a.kind.fields@, b.kind.fields@, base),
        (ItemKind::Enum(a), ItemKind::Enum(b)) => b.span == shift_span_spec(a.span, base) && b.kind.name == a.kind.name
            && b.kind.repr == a.kind.repr
            && generic_params_shifted(a.kind.generics@, b.kind.generics@, base)
            && where_predicates_shifted(a.kind.where_predicates@, b.kind.where_predicates@, base)
            && variants_shifted(a.kind.variants@, b.kind.variants@, base),
        (ItemKind::Interface(a), ItemKind::Interface(b)) => b.span == shift_span_spec(a.span, base) && b.kind.name == a.kind.name
            && generic_params_shifted(a.kind.generics@, b.kind.generics@, base)
            && interface_refs_shifted(a.kind.super_interfaces@, b.kind.super_interfaces@, base)
            && interface_members_shifted(a.kind.members@, b.kind.members@, base),
        (ItemKind::Impl(a), ItemKind::Impl(b)) => b.span == shift_span_spec(a.span, base)
            && generic_params_shifted(a.kind.generics@, b.kind.generics@, base)
            && where_predicates_shifted(a.kind.where_predicates@, b.kind.where_predicates@, base)
            && match (a.kind.interface, b.kind.interface) {
                (Some(x), Some(y)) => interface_ref_shifted(x, y, base),
                (None, None) => true,
                _ => false,
            }
            && ty_shifted(a.kind.self_ty, b.kind.self_ty, base)
            && impl_members_shifted(a.kind.members@, b.kind.members@, base),
        (ItemKind::Fn(a), ItemKind::Fn(b)) => b.span == shift_span_spec(a.span, base) && b.kind.name == a.kind.name
            && generic_params_shifted(a.kind.generics@, b.kind.generics@, base)
            && where_predicates_shifted(a.kind.where_predicates@, b.kind.where_predicates@, base)
            && params_shifted(a.kind.params@, b.kind.params@, base)
            && ty_shifted(a.kind.ret, b.kind.ret, base)
            && expr_shifted(a.kind.body, b.kind.body, base),
        _ => false,
    }
}

/// An item moved into the merged span space has its span moved and keeps
/// its name.
proof fn lemma_item_shifted_span_and_name(o: Item, n: Item, base: usize)
    requires
        item_shifted(o, n, base),
    ensures
        n.span == shift_span_spec(o.span, base),
        item_name(n) == item_name(o),
{
}

/// Moves every span of a program by `base`; nothing else changes.
fn shift_program(program: &mut Program, base: usize)
    ensures
        final(program).span == shift_span_spec(old(program).span, base),
        final(program).kind.items@.len() == old(program).kind.items@.len(),
        forall|k: int| 0 <= k < old(program).kind.items@.len() ==>
            #[trigger] item_shifted(old(program).kind.items@[k], final(program).kind.items@[k], base),
{
    program.span = shift_span(program.span, base);
    shift_items(&mut program.kind.items, base);
}

/// Moves every span of each item by `base`.
fn shift_items(items: &mut Vec<Item>, base: usize)
    ensures
        final(items)@.len() == old(items)@.len(),
        forall|k: int| 0 <= k < old(items)@.len() ==> #[trigger] item_shifted(old(items)@[k], final(items)@[k], base),
{
    let mut i: usize = 0;
    while i < items.len()
        invariant
            0 <= i <= items@.len(),
            items@.len() == old(items)@.len(),
            forall|k: int| 0 <= k < i ==> #[trigger] item_shifted(old(items)@[k], items@[k], base),
            forall|k: int| i <= k < items@.len() ==> items@[k] == old(items)@[k],
        decreases items@.len() - i,
    {
        let mut x = items.remove(i);
        shift_item(&mut x, base);
        items.insert(i, x);
        i = i + 1;
    }
}

/// Moves every span of an item by `base`; nothing else changes.
fn shift_item(item: &mut Item, base: usize)
    ensures
        item_shifted(*old(item), *final(item), base),
{
    item.span = shift_span(item.span, base);
    match &mut item.kind {
        ItemKind::Use(u) => {
            u.span = shift_span(u.span, base);
            shift_path(&mut u.kind.path, base);
        },
        ItemKind::Const(c) => {
            c.span = shift_span(c.span, base);
            shift_const_expr(&mut c.kind.expr, base);
        },
        ItemKind::Struct(s) => {
            s.span = shift_span(s.span, base);
            shift_generic_params(&mut s.kind.generics, base);
            shift_where_predicates(&mut s.kind.where_predicates, base);
            shift_fields(&mut s.kind.fields, base);
        },
        ItemKind::Enum(e) => {
            e.span = shift_span(e.span, base);
            shift_generic_params(&mut e.kind.generics, base);
            shift_where_predicates(&mut e.kind.where_predicates, base);
            shift_variants(&mut e.kind.variants, base);
        },
        ItemKind::Interface(it) => {
            it.span = shift_span(it.span, base);
            shift_generic_params(&mut it.kind.generics, base);
            shift_interface_refs(&mut it.kind.super_interfaces, base);
            shift_interface_members(&mut it.kind.members, base);
        },
        ItemKind::Impl(im) => {
            im.span = shift_span(im.span, base);
            shift_generic_params(&mut im.kind.generics, base);
            shift_where_predicates(&mut im.kind.where_predicates, base);
            match &mut im.kind.interface {
                Some(interface) => shift_interface_ref(interface, base),
                None => {},
            }
            shift_ty(&mut im.kind.self_ty, base);
            shift_impl_members(&mut im.kind.members, base);
        },
        ItemKind::Fn(f) => {
            f.span = shift_span(f.span, base);
            shift_generic_params(&mut f.kind.generics, base);
            shift_where_predicates(&mut f.kind.where_predicates, base);
            shift_params(&mut f.kind.params, base);
            shift_ty(&mut f.kind.ret, base);
            shift_expr(&mut f.kind.body, base);
        },
    }
}

/// Moves the spans of an interface reference.
fn shift_interface_ref(interface: &mut InterfaceRef, base: usize)
    ensures
        interface_ref_shifted(*old(interface), *final(interface), base),
{
    interface.span = shift_span(interface.span, base);
    shift_path(&mut interface.kind.path, base);
    shift_generic_args(&mut interface.kind.args, base);
}

/// Moves the spans of a method signature.
fn shift_method_sig(sig: &mut MethodSig, base: usize)
    ensures
        method_sig_shifted(*old(sig), *final(sig), base),
{
    sig.span = shift_span(sig.span, base);
    shift_generic_params(&mut sig.kind.generics, base);
    match &mut sig.kind.receiver {
        Some(receiver) => {
            receiver.span = shift_span(receiver.span, base);
        },
        None => {},
    }
    shift_params(&mut sig.kind.params, base);
    shift_ty(&mut sig.kind.ret, base);
}

/// Moves the spans of a variant payload.
fn shift_variant_payload(payload: &mut VariantPayload, base: usize)
    ensures
        payload_shifted(*old(payload), *final(payload), base),
{
    payload.span = shift_span(payload.span, base);
    match &mut payload.kind {
        VariantPayloadKind::Unit => {},
        VariantPayloadKind::Tuple(tys) => shift_tys(tys, base),
        VariantPayloadKind::Struct(fields) => shift_fields(fields, base),
    }
}

/// Moves the spans of a type.
fn shift_ty(ty: &mut Ty, base: usize)
    ensures
        ty_shifted(*old(ty), *final(ty), base),
    decreases *old(ty),
{
    ty.span = shift_span(ty.span, base);
    match &mut ty.kind {
        TyKind::Unit | TyKind::Bool | TyKind::Never | TyKind::Int(_) | TyKind::SelfTy => {},
        TyKind::Path { path, args } => {
            shift_path(path, base);
            shift_generic_args(args, base);
        },
        TyKind::Array { elem, len } => {
            shift_ty(elem, base);
            shift_const_expr(len, base);
        },
        TyKind::Ref { ty: inner, .. } => shift_ty(inner, base),
        TyKind::Fn { params, ret } => {
            shift_tys(params, base);
            shift_ty(ret, base);
        },
    }
}

/// Moves the spans of a generic argument.
fn shift_generic_arg(arg: &mut GenericArg, base: usize)
    ensures
        arg_shifted(*old(arg), *final(arg), base),
    decreases *old(arg),
{
    arg.span = shift_span(arg.span, base);
    match &mut arg.kind {
        GenericArgKind::Ty(t) => shift_ty(t, base),
        GenericArgKind::Const(e) => shift_const_expr(e, base),
    }
}

/// Moves the spans of a constant expression.
fn shift_const_expr(expr: &mut ConstExpr, base: usize)
    ensures
        const_shifted(*old(expr), *final(expr), base),
    decreases *old(expr),
{
    expr.span = shift_span(expr.span, base);
    match &mut expr.kind {
        ConstExprKind::IntLit(_) | ConstExprKind::Param(_) => {},
        ConstExprKind::Path(path) => shift_path(path, base),
        ConstExprKind::AssocConst { ty, interface, .. } => {
            shift_ty(ty, base);
            shift_path(interface, base);
        },
        ConstExprKind::Unary { expr: inner, .. } => shift_const_expr(inner, base),
        ConstExprKind::Binary { lhs, rhs, .. } => {
            shift_const_expr(lhs, base);
            shift_const_expr(rhs, base);
        },
        ConstExprKind::Cast { expr: inner, .. } => shift_const_expr(inner, base),
    }
}

/// Moves the spans of an expression.
fn shift_expr(expr: &mut Expr, base: usize)
    ensures
        expr_shifted(*old(expr), *final(expr), base),
    decreases *old(expr),
{
    expr.span = shift_span(expr.span, base);
    match &mut expr.kind {
        ExprKind::UnitLit | ExprKind::BoolLit(_) | ExprKind::IntLit(_) | ExprKind::Var(_) | ExprKind::Todo => {},
        ExprKind::Unary { expr: inner, .. } => shift_expr(inner, base),
        ExprKind::Binary { lhs, rhs, .. } => {
            shift_expr(lhs, base);
            shift_expr(rhs, base);
        },
        ExprKind::Assign { lhs, rhs } => {
            shift_expr(lhs, base);
            shift_expr(rhs, base);
        },
        ExprKind::Call { callee, args } => {
            shift_expr(callee, base);
            shift_exprs(args, base);
        },
        ExprKind::MethodCall { receiver, args, .. } => {
            shift_expr(receiver, base);
            shift_exprs(args, base);
        },
        ExprKind::StructLit { path, fields } => {
            shift_path(path, base);
            shift_field_exprs(fields, base);
        },
        ExprKind::EnumCtor { enum_path, args, .. } => {
            shift_path(enum_path, base);
            shift_enum_ctor_args(args, base);
        },
        ExprKind::Field { base: inner, .. } => shift_expr(inner, base),
        ExprKind::Index { base: inner, index } => {
            shift_expr(inner, base);
            shift_expr(index, base);
        },
        ExprKind::Match { scrutinee, arms } => {
            shift_expr(scrutinee, base);
            shift_arms(arms, base);
        },
        ExprKind::If { cond, then_branch, else_branch } => {
            shift_expr(cond, base);
            shift_block(then_branch, base);
            match else_branch {
                Some(block) => shift_block(block, base),
                None => {},
            }
        },
        ExprKind::Block(block) => shift_block(block, base),
        ExprKind::Return(value) => {
            match value {
                Some(v) => shift_expr(v, base),
                None => {},
            }
        },
    }
}

/// Moves the spans of a block.
fn shift_block(block: &mut Block, base: usize)
    ensures
        block_shifted(*old(block), *final(block), base),
    decreases *old(block),
{
    block.span = shift_span(block.span, base);
    shift_stmts(&mut block.kind.stmts, base);
    match &mut block.kind.tail {
        Some(tail) => shift_expr(tail, base),
        None => {},
    }
}

/// Moves the spans of constructor arguments.
fn shift_enum_ctor_args(args: &mut EnumCtorArgs, base: usize)
    ensures
        ctor_args_shifted(*old(args), *final(args), base),
    decreases *old(args),
{
    args.span = shift_span(args.span, base);
    match &mut args.kind {
        EnumCtorArgsKind::Unit => {},
        EnumCtorArgsKind::Tuple(exprs) => shift_exprs(exprs, base),
        EnumCtorArgsKind::Struct(fields) => shift_field_exprs(fields, base),
    }
}

/// Moves the spans of a pattern.
fn shift_pat(pat: &mut Pat, base: usize)
    ensures
        pat_shifted(*old(pat), *final(pat), base),
    decreases *old(pat),
{
    pat.span = shift_span(pat.span, base);
    match &mut pat.kind {
        PatKind::Wildcard | PatKind::Binding { .. } | PatKind::Unit | PatKind::BoolLit(_) | PatKind::IntLit(_) => {},
        PatKind::EnumVariant { enum_path, args, .. } => {
            shift_path(enum_path, base);
            shift_enum_pat_args(args, base);
        },
        PatKind::Struct { path, fields } => {
            shift_path(path, base);
            shift_field_pats(fields, base);
        },
    }
}

/// Moves the spans of variant sub-patterns.
fn shift_enum_pat_args(args: &mut EnumPatArgs, base: usize)
    ensures
        pat_args_shifted(*old(args), *final(args), base),
    decreases *old(args),
{
    args.span = shift_span(args.span, base);
    match &mut args.kind {
        EnumPatArgsKind::Unit => {},
        EnumPatArgsKind::Tuple(pats) => shift_pats(pats, base),
        EnumPatArgsKind::Struct(fields) => shift_field_pats(fields, base),
    }
}

/// Moves the span of a path.
fn shift_path(path: &mut Path, base: usize)
    ensures
        path_shifted(*old(path), *final(path), base),
{
    path.span = shift_span(path.span, base);
}

/// Moves every span of each element by `base`.
fn shift_tys(xs: &mut Vec<Ty>, base: usize)
    ensures
        tys_shifted(old(xs)@, final(xs)@, base),
    decreases *old(xs),
{
    let mut i: usize = 0;
    while i < xs.len()
        invariant
            0 <= i <= xs@.len(),
            xs@.len() == old(xs)@.len(),
            forall|k: int| i <= k < xs@.len() ==> xs@[k] == old(xs)@[k],
            tys_shifted(old(xs)@.take(i as int), xs@.take(i as int), base),
        decreases xs@.len() - i,
    {
        let ghost prefix = xs@.take(i as int);
        let mut x = xs.remove(i);
        proof {
            assert(x == old(xs)@[i as int]);
        }
        shift_ty(&mut x, base);
        let ghost done = x;
        xs.insert(i, x);
        proof {
            assert(prefix =~= xs@.take(i as int));
            lemma_tys_shifted_push(old(xs)@.take(i as int), prefix, old(xs)@[i as int], done, base);
            assert(old(xs)@.take(i as int).push(old(xs)@[i as int]) =~= old(xs)@.take(i + 1));
            assert(prefix.push(done) =~= xs@.take(i + 1));
        }
        i = i + 1;
    }
    proof {
        assert(old(xs)@.take(old(xs)@.len() as int) =~= old(xs)@);
        assert(xs@.take(xs@.len() as int) =~= xs@);
    }
}

/// Moves every span of each element by `base`.
fn shift_generic_args(xs: &mut Vec<GenericArg>, base: usize)
    ensures
        args_shifted(old(xs)@, final(xs)@, base),
    decreases *old(xs),
{
    let mut i: usize = 0;
    while i < xs.len()
        invariant
            0 <= i <= xs@.len(),
            xs@.len() == old(xs)@.len(),
            forall|k: int| i <= k < xs@.len() ==> xs@[k] == old(xs)@[k],
            args_shifted(old(xs)@.take(i as int), xs@.take(i as int), base),
        decreases xs@.len() - i,
    {
        let ghost prefix = xs@.take(i as int);
        let mut x = xs.remove(i);
        proof {
            assert(x == old(xs)@[i as int]);
        }
        shift_generic_arg(&mut x, base);
        let ghost done = x;
        xs.insert(i, x);
        proof {
            assert(prefix =~= xs@.take(i as int));
            lemma_args_shifted_push(old(xs)@.take(i as int), prefix, old(xs)@[i as int], done, base);
            assert(old(xs)@.take(i as int).push(old(xs)@[i as int]) =~= old(xs)@.take(i + 1));
            assert(prefix.push(done) =~= xs@.take(i + 1));
        }
        i = i + 1;
    }
    proof {
        assert(old(xs)@.take(old(xs)@.len() as int) =~= old(xs)@);
        assert(xs@.take(xs@.len() as int) =~= xs@);
    }
}

/// Moves every span of each element by `base`.
fn shift_exprs(xs: &mut Vec<Expr>, base: usize)
    ensures
        exprs_shifted(old(xs)@, final(xs)@, base),
    decreases *old(xs),
{
    let mut i: usize = 0;
    while i < xs.len()
        invariant
            0 <= i <= xs@.len(),
            xs@.len() == old(xs)@.len(),
            forall|k: int| i <= k < xs@.len() ==> xs@[k] == old(xs)@[k],
            exprs_shifted(old(xs)@.take(i as int), xs@.take(i as int), base),
        decreases xs@.len() - i,
    {
        let ghost prefix = xs@.take(i as int);
        let mut x = xs.remove(i);
        proof {
            assert(x == old(xs)@[i as int]);
        }
        shift_expr(&mut x, base);
        let ghost done = x;
        xs.insert(i, x);
        proof {
            assert(prefix =~= xs@.take(i as int));
            lemma_exprs_shifted_push(old(xs)@.take(i as int), prefix, old(xs)@[i as int], done, base);
            assert(old(xs)@.take(i as int).push(old(xs)@[i as int]) =~= old(xs)@.take(i + 1));
            assert(prefix.push(done) =~= xs@.take(i + 1));
        }
        i = i + 1;
    }
    proof {
        assert(old(xs)@.take(old(xs)@.len() as int) =~= old(xs)@);
        assert(xs@.take(xs@.len() as int) =~= xs@);
    }
}

/// Moves every span of each element by `base`.
fn shift_arms(xs: &mut Vec<crate::ast::MatchArm>, base: usize)
    ensures
        arms_shifted(old(xs)@, final(xs)@, base),
    decreases *old(xs),
{
    let mut i: usize = 0;
    while i < xs.len()
        invariant
            0 <= i <= xs@.len(),
            xs@.len() == old(xs)@.len(),
            forall|k: int| i <= k < xs@.len() ==> xs@[k] == old(xs)@[k],
            arms_shifted(old(xs)@.take(i as int), xs@.take(i as int), base),
        decreases xs@.len() - i,
    {
        let ghost prefix = xs@.take(i as int);
        let mut x = xs.remove(i);
        proof {
            assert(x == old(xs)@[i as int]);
        }
        x.span = shift_span(x.span, base);
        shift_pat(&mut x.kind.pat, base);
        shift_expr(&mut x.kind.body, base);
        let ghost done = x;
        xs.insert(i, x);
        proof {
            assert(prefix =~= xs@.take(i as int));
            lemma_arms_shifted_push(old(xs)@.take(i as int), prefix, old(xs)@[i as int], done, base);
            assert(old(xs)@.take(i as int).push(old(xs)@[i as int]) =~= old(xs)@.take(i + 1));
            assert(prefix.push(done) =~= xs@.take(i + 1));
        }
        i = i + 1;
    }
    proof {
        assert(old(xs)@.take(old(xs)@.len() as int) =~= old(xs)@);
        assert(xs@.take(xs@.len() as int) =~= xs@);
    }
}

/// Moves every span of each element by `base`.
fn shift_stmts(xs: &mut Vec<crate::ast::Stmt>, base: usize)
    ensures
        stmts_shifted(old(xs)@, final(xs)@, base),
    decreases *old(xs),
{
    let mut i: usize = 0;
    while i < xs.len()
        invariant
            0 <= i <= xs@.len(),
            xs@.len() == old(xs)@.len(),
            forall|k: int| i <= k < xs@.len() ==> xs@[k] == old(xs)@[k],
            stmts_shifted(old(xs)@.take(i as int), xs@.take(i as int), base),
        decreases xs@.len() - i,
    {
        let ghost prefix = xs@.take(i as int);
        let mut x = xs.remove(i);
        proof {
            assert(x == old(xs)@[i as int]);
        }
        x.span = shift_span(x.span, base);
        match &mut x.kind {
            StmtKind::Let(let_stmt) => {
                let_stmt.span = shift_span(let_stmt.span, base);
                match &mut let_stmt.kind.ty {
                    Some(t) => shift_ty(t, base),
                    None => {},
                }
                match &mut let_stmt.kind.init {
                    Some(init) => shift_expr(init, base),
                    None => {},
                }
            },
            StmtKind::Expr(e) => shift_expr(e, base),
            StmtKind::Semi(e) => shift_expr(e, base),
        }
        let ghost done = x;
        xs.insert(i, x);
        proof {
            assert(prefix =~= xs@.take(i as int));
            lemma_stmts_shifted_push(old(xs)@.take(i as int), prefix, old(xs)@[i as int], done, base);
            assert(old(xs)@.take(i as int).push(old(xs)@[i as int]) =~= old(xs)@.take(i + 1));
            assert(prefix.push(done) =~= xs@.take(i + 1));
        }
        i = i + 1;
    }
    proof {
        assert(old(xs)@.take(old(xs)@.len() as int) =~= old(xs)@);
        assert(xs@.take(xs@.len() as int) =~= xs@);
    }
}

/// Moves every span of each element by `base`.
fn shift_field_exprs(xs: &mut Vec<FieldExpr>, base: usize)
    ensures
        field_exprs_shifted(old(xs)@, final(xs)@, base),
    decreases *old(xs),
{
    let mut i: usize = 0;
    while i < xs.len()
        invariant
            0 <= i <= xs@.len(),
            xs@.len() == old(xs)@.len(),
            forall|k: int| i <= k < xs@.len() ==> xs@[k] == old(xs)@[k],
            field_exprs_shifted(old(xs)@.take(i as int), xs@.take(i as int), base),
        decreases xs@.len() - i,
    {
        let ghost prefix = xs@.take(i as int);
        let mut x = xs.remove(i);
        proof {
            assert(x == old(xs)@[i as int]);
        }
        x.span = shift_span(x.span, base);
        shift_expr(&mut x.kind.expr, base);
        let ghost done = x;
        xs.insert(i, x);
        proof {
            assert(prefix =~= xs@.take(i as int));
            lemma_field_exprs_shifted_push(old(xs)@.take(i as int), prefix, old(xs)@[i as int], done, base);
            assert(old(xs)@.take(i as int).push(old(xs)@[i as int]) =~= old(xs)@.take(i + 1));
            assert(prefix.push(done) =~= xs@.take(i + 1));
        }
        i = i + 1;
    }
    proof {
        assert(old(xs)@.take(old(xs)@.len() as int) =~= old(xs)@);
        assert(xs@.take(xs@.len() as int) =~= xs@);
    }
}

/// Moves every span of each element by `base`.
fn shift_pats(xs: &mut Vec<Pat>, base: usize)
    ensures
        pats_shifted(old(xs)@, final(xs)@, base),
    decreases *old(xs),
{
    let mut i: usize = 0;
    while i < xs.len()
        invariant
            0 <= i <= xs@.len(),
            xs@.len() == old(xs)@.len(),
            forall|k: int| i <= k < xs@.len() ==> xs@[k] == old(xs)@[k],
            pats_shifted(old(xs)@.take(i as int), xs@.take(i as int), base),
        decreases xs@.len() - i,
    {
        let ghost prefix = xs@.take(i as int);
        let mut x = xs.remove(i);
        proof {
            assert(x == old(xs)@[i as int]);
        }
        shift_pat(&mut x, base);
        let ghost done = x;
        xs.insert(i, x);
        proof {
            assert(prefix =~= xs@.take(i as int));
            lemma_pats_shifted_push(old(xs)@.take(i as int), prefix, old(xs)@[i as int], done, base);
            assert(old(xs)@.take(i as int).push(old(xs)@[i as int]) =~= old(xs)@.take(i + 1));
            assert(prefix.push(done) =~= xs@.take(i + 1));
        }
        i = i + 1;
    }
    proof {
        assert(old(xs)@.take(old(xs)@.len() as int) =~= old(xs)@);
        assert(xs@.take(xs@.len() as int) =~= xs@);
    }
}

/// Moves every span of each element by `base`.
fn shift_field_pats(xs: &mut Vec<FieldPat>, base: usize)
    ensures
        field_pats_shifted(old(xs)@, final(xs)@, base),
    decreases *old(xs),
{
    let mut i: usize = 0;
    while i < xs.len()
        invariant
            0 <= i <= xs@.len(),
            xs@.len() == old(xs)@.len(),
            forall|k: int| i <= k < xs@.len() ==> xs@[k] == old(xs)@[k],
            field_pats_shifted(old(xs)@.take(i as int), xs@.take(i as int), base),
        decreases xs@.len() - i,
    {
        let ghost prefix = xs@.take(i as int);
        let mut x = xs.remove(i);
        proof {
            assert(x == old(xs)@[i as int]);
        }
        x.span = shift_span(x.span, base);
        shift_pat(&mut x.kind.pat, base);
        let ghost done = x;
        xs.insert(i, x);
        proof {
            assert(prefix =~= xs@.take(i as int));
            lemma_field_pats_shifted_push(old(xs)@.take(i as int), prefix, old(xs)@[i as int], done, base);
            assert(old(xs)@.take(i as int).push(old(xs)@[i as int]) =~= old(xs)@.take(i + 1));
            assert(prefix.push(done) =~= xs@.take(i + 1));
        }
        i = i + 1;
    }
    proof {
        assert(old(xs)@.take(old(xs)@.len() as int) =~= old(xs)@);
        assert(xs@.take(xs@.len() as int) =~= xs@);
    }
}

/// Moves every span of each element by `base`.
fn shift_variants(xs: &mut Vec<crate::ast::EnumVariant>, base: usize)
    ensures
        variants_shifted(old(xs)@, final(xs)@, base),
{
    let mut i: usize = 0;
    while i < xs.len()
        invariant
            0 <= i <= xs@.len(),
            xs@.len() == old(xs)@.len(),
            forall|k: int| i <= k < xs@.len() ==> xs@[k] == old(xs)@[k],
            forall|k: int| 0 <= k < i ==> #[trigger] variant_shifted(old(xs)@[k], xs@[k], base),
        decreases xs@.len() - i,
    {
        let mut x = xs.remove(i);
        proof {
            assert(x == old(xs)@[i as int]);
        }
        x.span = shift_span(x.span, base);
        shift_variant_payload(&mut x.kind.payload, base);
        match &mut x.kind.discriminant {
            Some(d) => shift_const_expr(d, base),
            None => {},
        }
        xs.insert(i, x);
        i = i + 1;
    }
}

/// Moves every span of each element by `base`.
fn shift_interface_members(xs: &mut Vec<crate::ast::InterfaceMember>, base: usize)
    ensures
        interface_members_shifted(old(xs)@, final(xs)@, base),
{
    let mut i: usize = 0;
    while i < xs.len()
        invariant
            0 <= i <= xs@.len(),
            xs@.len() == old(xs)@.len(),
            forall|k: int| i <= k < xs@.len() ==> xs@[k] == old(xs)@[k],
            forall|k: int| 0 <= k < i ==> #[trigger] interface_member_shifted(old(xs)@[k], xs@[k], base),
        decreases xs@.len() - i,
    {
        let mut x = xs.remove(i);
        proof {
            assert(x == old(xs)@[i as int]);
        }
        x.span = shift_span(x.span, base);
        match &mut x.kind {
            InterfaceMemberKind::AssocConst(sig) => {
                sig.span = shift_span(sig.span, base);
                match &mut sig.kind.default {
                    Some(d) => shift_const_expr(d, base),
                    None => {},
                }
            },
            InterfaceMemberKind::Method(sig) => shift_method_sig(sig, base),
        }
        xs.insert(i, x);
        i = i + 1;
    }
}

/// Moves every span of each element by `base`.
fn shift_impl_members(xs: &mut Vec<crate::ast::ImplMember>, base: usize)
    ensures
        impl_members_shifted(old(xs)@, final(xs)@, base),
{
    let mut i: usize = 0;
    while i < xs.len()
        invariant
            0 <= i <= xs@.len(),
            xs@.len() == old(xs)@.len(),
            forall|k: int| i <= k < xs@.len() ==> xs@[k] == old(xs)@[k],
            forall|k: int| 0 <= k < i ==> #[trigger] impl_member_shifted(old(xs)@[k], xs@[k], base),
        decreases xs@.len() - i,
    {
        let mut x = xs.remove(i);
        proof {
            assert(x == old(xs)@[i as int]);
        }
        x.span = shift_span(x.span, base);
        match &mut x.kind {
            ImplMemberKind::AssocConst(c) => {
                c.span = shift_span(c.span, base);
                shift_const_expr(&mut c.kind.expr, base);
            },
            ImplMemberKind::Method(method) => {
                method.span = shift_span(method.span, base);
                shift_method_sig(&mut method.kind.sig, base);
                shift_expr(&mut method.kind.body, base);
            },
        }
        xs.insert(i, x);
        i = i + 1;
    }
}

/// Moves every span of each element by `base`.
fn shift_generic_params(xs: &mut Vec<GenericParam>, base: usize)
    ensures
        generic_params_shifted(old(xs)@, final(xs)@, base),
{
    let mut i: usize = 0;
    while i < xs.len()
        invariant
            0 <= i <= xs@.len(),
            xs@.len() == old(xs)@.len(),
            forall|k: int| i <= k < xs@.len() ==> xs@[k] == old(xs)@[k],
            forall|k: int| 0 <= k < i ==> #[trigger] generic_param_shifted(old(xs)@[k], xs@[k], base),
        decreases xs@.len() - i,
    {
        let mut x = xs.remove(i);
        proof {
            assert(x == old(xs)@[i as int]);
        }
        x.span = shift_span(x.span, base);
        match &mut x.kind {
            GenericParamKind::Type { bounds, .. } => shift_interface_refs(bounds, base),
            GenericParamKind::Const { .. } => {},
        }
        xs.insert(i, x);
        i = i + 1;
    }
}

/// Moves every span of each element by `base`.
fn shift_interface_refs(xs: &mut Vec<InterfaceRef>, base: usize)
    ensures
        interface_refs_shifted(old(xs)@, final(xs)@, base),
{
    let mut i: usize = 0;
    while i < xs.len()
        invariant
            0 <= i <= xs@.len(),
            xs@.len() == old(xs)@.len(),
            forall|k: int| i <= k < xs@.len() ==> xs@[k] == old(xs)@[k],
            forall|k: int| 0 <= k < i ==> #[trigger] interface_ref_shifted(old(xs)@[k], xs@[k], base),
        decreases xs@.len() - i,
    {
        let mut x = xs.remove(i);
        proof {
            assert(x == old(xs)@[i as int]);
        }
        shift_interface_ref(&mut x, base);
        xs.insert(i, x);
        i = i + 1;
    }
}

/// Moves every span of each element by `base`.
fn shift_where_predicates(xs: &mut Vec<WherePredicate>, base: usize)
    ensures
        where_predicates_shifted(old(xs)@, final(xs)@, base),
{
    let mut i: usize = 0;
    while i < xs.len()
        invariant
            0 <= i <= xs@.len(),
            xs@.len() == old(xs)@.len(),
            forall|k: int| i <= k < xs@.len() ==> xs@[k] == old(xs)@[k],
            forall|k: int| 0 <= k < i ==> #[trigger] where_predicate_shifted(old(xs)@[k], xs@[k], base),
        decreases xs@.len() - i,
    {
        let mut x = xs.remove(i);
        proof {
            assert(x == old(xs)@[i as int]);
        }
        x.span = shift_span(x.span, base);
        match &mut x.kind {
            WherePredicateKind::Implements { ty, interface } => {
                shift_ty(ty, base);
                shift_interface_ref(interface, base);
            },
            WherePredicateKind::ConstEq { lhs, rhs } => {
                shift_const_expr(lhs, base);
                shift_const_expr(rhs, base);
            },
        }
        xs.insert(i, x);
        i = i + 1;
    }
}

/// Moves every span of each element by `base`.
fn shift_params(xs: &mut Vec<crate::ast::Param>, base: usize)
    ensures
        params_shifted(old(xs)@, final(xs)@, base),
{
    let mut i: usize = 0;
    while i < xs.len()
        invariant
            0 <= i <= xs@.len(),
            xs@.len() == old(xs)@.len(),
            forall|k: int| i <= k < xs@.len() ==> xs@[k] == old(xs)@[k],
            forall|k: int| 0 <= k < i ==> #[trigger] param_shifted(old(xs)@[k], xs@[k], base),
        decreases xs@.len() - i,
    {
        let mut x = xs.remove(i);
        proof {
            assert(x == old(xs)@[i as int]);
        }
        x.span = shift_span(x.span, base);
        shift_ty(&mut x.kind.ty, base);
        xs.insert(i, x);
        i = i + 1;
    }
}

/// Moves every span of each element by `base`.
fn shift_fields(xs: &mut Vec<Field>, base: usize)
    ensures
        fields_shifted(old(xs)@, final(xs)@, base),
{
    let mut i: usize = 0;
    while i < xs.len()
        invariant
            0 <= i <= xs@.len(),
            xs@.len() == old(xs)@.len(),
            forall|k: int| i <= k < xs@.len() ==> xs@[k] == old(xs)@[k],
            forall|k: int| 0 <= k < i ==> #[trigger] field_shifted(old(xs)@[k], xs@[k], base),
        decreases xs@.len() - i,
    {
        let mut x = xs.remove(i);
        proof {
            assert(x == old(xs)@[i as int]);
        }
        x.span = shift_span(x.span, base);
        shift_ty(&mut x.kind.ty, base);
        xs.insert(i, x);
        i = i + 1;
    }
}

// ---------------------------------------------------------------------
// Item names and whole programs

/// The name an item declares, for the items that declare one.
pub open spec fn item_name(item: Item) -> Option<Seq<char>> {
    match item.kind {
        ItemKind::Const(c) => Some(c.kind.name@),
        ItemKind::Struct(s) => Some(s.kind.name@),
        ItemKind::Enum(e) => Some(e.kind.name@),
        ItemKind::Interface(i) => Some(i.kind.name@),
        ItemKind::Fn(f) => Some(f.kind.name@),
        ItemKind::Use(_) | ItemKind::Impl(_) => None,
    }
}

/// The name of an item declared in `module`, as the merged program holds
/// it: the module's segments and the name joined with `::`.
pub open spec fn qualified_item_name(module: Seq<String>, name: Option<Seq<char>>) -> Option<Seq<char>> {
    match name {
        Some(n) => Some(crate::ast::join_segments(names_view(module).push(n))),
        None => None,
    }
}

/// Qualifies the name an item declares by the module path.
fn qualify_item_name(item: &mut Item, module: &Vec<String>)
    ensures
        final(item).span == old(item).span,
        item_name(*final(item)) == qualified_item_name(module@, item_name(*old(item))),
{
    match &mut item.kind {
        ItemKind::Use(_) | ItemKind::Impl(_) => {},
        ItemKind::Const(c) => {
            c.kind.name = qualify_name(module, c.kind.name.as_str());
        },
        ItemKind::Struct(s) => {
            s.kind.name = qualify_name(module, s.kind.name.as_str());
        },
        ItemKind::Enum(e) => {
            e.kind.name = qualify_name(module, e.kind.name.as_str());
        },
        ItemKind::Interface(i) => {
            i.kind.name = qualify_name(module, i.kind.name.as_str());
        },
        ItemKind::Fn(f) => {
            f.kind.name = qualify_name(module, f.kind.name.as_str());
        },
    }
}

/// Qualifies one source file's program for the merged package: references
/// first, against the names the file declares and imports, then the
/// declared names themselves. Returns the missing-dependency errors.
fn qualify_program(program: &mut Program, module: &Vec<String>) -> (r: Vec<Diagnostic>)
    ensures
        final(program).span == old(program).span,
        final(program).kind.items@.len() == old(program).kind.items@.len(),
        forall|k: int| 0 <= k < old(program).kind.items@.len() ==> {
            &&& #[trigger] item_name(final(program).kind.items@[k])
                == qualified_item_name(module@, item_name(old(program).kind.items@[k]))
            &&& final(program).kind.items@[k].span == old(program).kind.items@[k].span
        },
        old(program).kind.items@.len() == 0 ==> r@.len() == 0,
        crate::parser::literal_constants(old(program).kind.items@) ==> r@.len() == 0,
        forall|k: int| 0 <= k < r@.len() ==> dependency_error(#[trigger] r@[k]),
{
    let locals = LocalNames::new(&program.kind.items);
    let mut diagnostics: Vec<Diagnostic> = Vec::new();
    let scope = ScopeNames::empty();
    let items = &mut program.kind.items;
    let mut i: usize = 0;
    while i < items.len()
        invariant
            0 <= i <= items@.len(),
            locals.wf(),
            items@.len() == old(program).kind.items@.len(),
            forall|k: int| 0 <= k < items@.len() ==> #[trigger] item_name(items@[k]) == item_name(old(program).kind.items@[k]),
            forall|k: int| 0 <= k < items@.len() ==> #[trigger] items@[k].span == old(program).kind.items@[k].span,
            old(program).kind.items@.len() == 0 ==> diagnostics@.len() == 0,
            forall|k: int| 0 <= k < diagnostics@.len() ==> dependency_error(#[trigger] diagnostics@[k]),
            crate::parser::literal_constants(old(program).kind.items@) ==> diagnostics@.len() == 0,
            forall|k: int| i <= k < items@.len() ==> #[trigger] items@[k] == old(program).kind.items@[k],
        decreases items@.len() - i,
    {
        let mut x = items.remove(i);
        qualify_item_refs(&mut x, module, &locals, &scope, &mut diagnostics);
        items.insert(i, x);
        i = i + 1;
    }
    let mut j: usize = 0;
    while j < items.len()
        invariant
            0 <= j <= items@.len(),
            items@.len() == old(program).kind.items@.len(),
            forall|k: int| 0 <= k < j ==> #[trigger] item_name(items@[k])
                == qualified_item_name(module@, item_name(old(program).kind.items@[k])),
            forall|k: int| j <= k < items@.len() ==> #[trigger] item_name(items@[k]) == item_name(old(program).kind.items@[k]),
            forall|k: int| 0 <= k < items@.len() ==> #[trigger] items@[k].span == old(program).kind.items@[k].span,
        decreases items@.len() - j,
    {
        let mut x = items.remove(j);
        qualify_item_name(&mut x, module);
        items.insert(j, x);
        j = j + 1;
    }
    diagnostics
}

/// Whether a text holds no tokens: it lexes without errors to `Eof` alone.
pub open spec fn has_no_tokens(text: Seq<char>) -> bool {
    crate::lexer::lex_from(text, 0).1.len() == 0 && crate::lexer::lex_from(text, 0).0[0].1 is Eof
}

/// Where each source starts in the merged span space: the first at 0, each
/// next one past the previous text and one separating offset (saturating);
/// a source that could not be read takes no room.
pub open spec fn source_base(sources: Seq<SourceSpec>, k: int) -> usize
    decreases k,
{
    if k <= 0 {
        0
    } else {
        let prev = source_base(sources, k - 1);
        match sources[k - 1].text {
            Ok(text) => sat_add(sat_add(prev, vstd::utf8::encode_utf8(text@).len() as usize), 1),
            Err(_) => prev,
        }
    }
}

/// Whether the diagnostic reports that source `k` could not be read, at
/// the offset where it would have started.
pub open spec fn read_failure_at(d: Diagnostic, sources: Seq<SourceSpec>, k: int) -> bool {
    &&& d.severity == crate::diagnostic::DiagnosticSeverity::Error
    &&& d.span == Span { start: source_base(sources, k), end: source_base(sources, k) }
    &&& d.message@ == read_failure_message(sources[k].name@, sources[k].text->Err_0@)
}

/// Whether one of the diagnostics reports that source `k` could not be
/// read.
pub open spec fn read_failure_reported(diagnostics: Seq<Diagnostic>, sources: Seq<SourceSpec>, k: int) -> bool {
    exists|j: int| 0 <= j < diagnostics.len() && #[trigger] read_failure_at(diagnostics[j], sources, k)
}

/// Whether the modules and the source map of a package were assembled
/// from the sources, all of them read: one module and one source entry per
/// source, in order, each source at its offset in the merged span space.
pub open spec fn assembled_from(modules: Seq<PackageModule>, map: PackageSourceMap, sources: Seq<SourceSpec>) -> bool {
    &&& forall|k: int| 0 <= k < sources.len() ==> #[trigger] sources[k].text is Ok
    &&& entries_match(modules, map, sources, sources.len() as int)
}

/// Whether module `k` and source-map entry `k` were made from source `k`.
pub open spec fn entry_matches(modules: Seq<PackageModule>, map: PackageSourceMap, sources: Seq<SourceSpec>, k: int) -> bool {
    &&& modules[k].name@ == sources[k].module@
    &&& modules[k].source_name == sources[k].name
    &&& map.sources_view()[k] == (sources[k].name@, source_base(sources, k),
        vstd::utf8::encode_utf8(sources[k].text->Ok_0@).len() as usize)
    &&& map.source_text(k) == sources[k].text->Ok_0@
}

/// Whether the modules and the source-map entries are those of the first
/// `n` sources.
pub open spec fn entries_match(modules: Seq<PackageModule>, map: PackageSourceMap, sources: Seq<SourceSpec>, n: int) -> bool {
    &&& modules.len() == n
    &&& map.sources_view().len() == n
    &&& forall|k: int| 0 <= k < n ==> #[trigger] entry_matches(modules, map, sources, k)
}

/// Adding the entries of one more source keeps the earlier ones.
proof fn lemma_entries_extend(m0: Seq<PackageModule>, map0: PackageSourceMap, m1: Seq<PackageModule>, map1: PackageSourceMap, sources: Seq<SourceSpec>, n: int)
    requires
        0 <= n < sources.len(),
        entries_match(m0, map0, sources, n),
        m1.len() == n + 1,
        forall|k: int| 0 <= k < n ==> m1[k] == m0[k],
        map1.sources_view().len() == n + 1,
        forall|k: int| 0 <= k < n ==> map1.sources_view()[k] == map0.sources_view()[k],
        forall|k: int| 0 <= k < n ==> map1.source_text(k) == map0.source_text(k),
        entry_matches(m1, map1, sources, n),
    ensures
        entries_match(m1, map1, sources, n + 1),
{
    assert forall|k: int| 0 <= k < n + 1 implies #[trigger] entry_matches(m1, map1, sources, k) by {
        if k < n {
            assert(entry_matches(m0, map0, sources, k));
        }
    }
}

/// Whether an item that declares a name declares it inside `module`: the
/// module's segments followed by a name.
pub open spec fn named_in(item: Item, module: Seq<String>) -> bool {
    item_name(item) matches Some(q) ==> exists|n: Seq<char>| q == crate::ast::join_segments(#[trigger] names_view(module).push(n))
}

/// Whether `span` is an ordered span within the first `len` bytes of a
/// text, moved by `base`.
pub open spec fn moved_span(span: Span, base: usize, len: int) -> bool {
    exists|local: Span| #[trigger] shift_span_spec(local, base) == span && crate::parser::span_in(local, len)
}

/// Whether a merged span is a span of source `k`'s text moved to where
/// that source starts in the merged span space.
pub open spec fn span_from_source(span: Span, sources: Seq<SourceSpec>, k: int) -> bool {
    moved_span(span, source_base(sources, k), source_len(sources, k))
}

/// Whether `origin` tells, for each merged item, the source it came from:
/// sources in order, each item named inside its source's module and
/// spanning part of that source's text.
pub open spec fn items_from(items: Seq<Item>, origin: Seq<int>, sources: Seq<SourceSpec>) -> bool {
    &&& origin.len() == items.len()
    &&& forall|j: int| 0 <= j < items.len() ==> 0 <= #[trigger] origin[j] < sources.len()
        && named_in(items[j], sources[origin[j]].module@)
        && span_from_source(items[j].span, sources, origin[j])
    &&& forall|a: int, b: int| 0 <= a < b < items.len() ==> #[trigger] origin[a] <= #[trigger] origin[b]
}

/// The message for a package with no sources of its own.
pub open spec fn no_sources_message(input: Seq<char>) -> Seq<char> {
    "no `.tess` source files found under `"@ + input + "`"@
}

/// The message for a source that could not be read.
pub open spec fn read_failure_message(name: Seq<char>, reason: Seq<char>) -> Seq<char> {
    "failed to read `"@ + name + "`: "@ + reason
}

/// Assembles a package from its sources, in order: each readable source is
/// parsed, its names qualified by its module path, its spans moved to where
/// it starts in the merged span space, and its items appended to the merged
/// program. `input` names the package in the error for a package with no
/// sources beyond the standard library.
pub fn load_package_sources(input: &str, sources: &Vec<SourceSpec>) -> (r: Result<Package, PackageLoadError>)
    ensures
        (forall|k: int| 0 <= k < sources@.len() ==> #[trigger] sources@[k].is_stdlib) ==> (r matches Err(e) && {
            &&& e.diagnostics@.len() == 1
            &&& e.diagnostics@[0].severity == crate::diagnostic::DiagnosticSeverity::Error
            &&& e.diagnostics@[0].span == Span::default_spec()
            &&& e.diagnostics@[0].message@ == no_sources_message(input@)
            &&& e.source_map.sources_view().len() == 0
        }),
        r matches Err(e) ==> e.diagnostics@.len() > 0,
        (exists|k: int| 0 <= k < sources@.len() && !sources@[k].is_stdlib) ==> forall|k: int| 0 <= k < sources@.len()
            && #[trigger] sources@[k].text is Err ==> (r matches Err(e) && read_failure_reported(e.diagnostics@, sources@, k)),
        ((exists|k: int| 0 <= k < sources@.len() && !sources@[k].is_stdlib)
            && forall|k: int| 0 <= k < sources@.len() ==> (#[trigger] sources@[k].text matches Ok(t) && has_no_tokens(t@)))
            ==> (r matches Ok(p) && p.program.kind.items@.len() == 0),
        ((exists|k: int| 0 <= k < sources@.len() && !sources@[k].is_stdlib)
            && forall|k: int| 0 <= k < sources@.len() ==> (#[trigger] sources@[k].text matches Ok(t)
                && crate::parser::const_decl_text(t@)))
            ==> r is Ok,
        r matches Ok(p) ==> assembled_from(p.modules@, p.source_map, sources@),
        r matches Ok(p) ==> exists|o: Seq<int>| #[trigger] items_from(p.program.kind.items@, o, sources@),
        r matches Ok(p) ==> p.program.span == if p.program.kind.items@.len() == 0 {
            Span::default_spec()
        } else {
            Span { start: p.program.kind.items@[0].span.start, end: p.program.kind.items@.last().span.end }
        },
{
    let mut all_stdlib = true;
    let mut s: usize = 0;
    while s < sources.len()
        invariant
            0 <= s <= sources@.len(),
            all_stdlib == forall|k: int| 0 <= k < s ==> #[trigger] sources@[k].is_stdlib,
        decreases sources@.len() - s,
    {
        if !sources[s].is_stdlib {
            all_stdlib = false;
        }
        s = s + 1;
    }
    if all_stdlib {
        proof {
            reveal_strlit("no `.tess` source files found under `");
            reveal_strlit("`");
        }
        let message = cat3("no `.tess` source files found under `", input, "`");
        let mut diagnostics: Vec<Diagnostic> = Vec::new();
        diagnostics.push(Diagnostic::error(Span::zero(), message));
        return Err(PackageLoadError { diagnostics, source_map: PackageSourceMap::new() });
    }
    let mut source_map = PackageSourceMap::new();
    let mut modules: Vec<PackageModule> = Vec::new();
    let mut items: Vec<Item> = Vec::new();
    let mut diagnostics: Vec<Diagnostic> = Vec::new();
    let mut base: usize = 0;
    let mut all_read = true;
    let mut i: usize = 0;
    let ghost mut origin: Seq<int> = Seq::empty();
    while i < sources.len()
        invariant
            0 <= i <= sources@.len(),
            items_from(items@, origin, sources@),
            forall|j: int| 0 <= j < origin.len() ==> #[trigger] origin[j] < i,
            base == source_base(sources@, i as int),
            all_read == forall|k: int| 0 <= k < i ==> #[trigger] sources@[k].text is Ok,
            all_read ==> entries_match(modules@, source_map, sources@, i as int),
            forall|k: int| 0 <= k < i && #[trigger] sources@[k].text is Err ==> read_failure_reported(diagnostics@, sources@, k),
            (forall|k: int| 0 <= k < sources@.len() ==> (#[trigger] sources@[k].text matches Ok(t) && has_no_tokens(t@)))
                ==> diagnostics@.len() == 0 && items@.len() == 0,
            (forall|k: int| 0 <= k < sources@.len() ==> (#[trigger] sources@[k].text matches Ok(t)
                && crate::parser::const_decl_text(t@))) ==> diagnostics@.len() == 0,
        decreases sources@.len() - i,
    {
        let source = &sources[i];
        let ghost before = diagnostics@;
        match &source.text {
            Err(reason) => {
                proof {
                    reveal_strlit("failed to read `");
                    reveal_strlit("`: ");
                }
                let mut message = cat3("failed to read `", source.name.as_str(), "`: ");
                push_string(&mut message, reason);
                diagnostics.push(Diagnostic::error(Span::new(base, base), message));
                proof {
                    assert(read_failure_at(diagnostics@[before.len() as int], sources@, i as int));
                }
                all_read = false;
            },
            Ok(text) => {
                let len = text.as_str().as_bytes().len();
                let ghost prior_modules = modules@;
                let ghost prior_map = source_map;
                let ghost prior_items = items@;
                load_source(source, text, base, &mut source_map, &mut modules, &mut items, &mut diagnostics);
                proof {
                    let added = Seq::new((items@.len() - prior_items.len()) as nat, |j: int| i as int);
                    let next = origin + added;
                    assert forall|j: int| 0 <= j < items@.len() implies 0 <= #[trigger] next[j] < sources@.len()
                        && named_in(items@[j], sources@[next[j]].module@) by {
                        if j < prior_items.len() {
                            assert(items@[j] == prior_items[j]);
                            assert(next[j] == origin[j]);
                        } else {
                            assert(next[j] == i as int);
                        }
                    }
                    assert forall|a: int, b: int| 0 <= a < b < items@.len() implies #[trigger] next[a] <= #[trigger] next[b] by {
                        if b < prior_items.len() {
                            assert(next[a] == origin[a] && next[b] == origin[b]);
                        } else if a < prior_items.len() {
                            assert(next[a] == origin[a] && origin[a] < i);
                        }
                    }
                    origin = next;
                }
                base = base.saturating_add(len).saturating_add(1);
                proof {
                    if all_read {
                        assert(entry_matches(modules@, source_map, sources@, i as int));
                        lemma_entries_extend(prior_modules, prior_map, modules@, source_map, sources@, i as int);
                    }
                }
            },
        }
        proof {
            assert forall|k: int| 0 <= k < i + 1 && #[trigger] sources@[k].text is Err implies read_failure_reported(diagnostics@, sources@, k) by {
                if k < i {
                    let j = choose|j: int| 0 <= j < before.len() && #[trigger] read_failure_at(before[j], sources@, k);
                    assert(diagnostics@[j] == before[j]);
                } else {
                    assert(read_failure_at(diagnostics@[before.len() as int], sources@, k));
                }
            }
        }
        i = i + 1;
    }
    proof {
        if diagnostics@.len() == 0 {
            assert forall|k: int| 0 <= k < sources@.len() implies #[trigger] sources@[k].text is Ok by {
                if sources@[k].text is Err {
                    assert(read_failure_reported(diagnostics@, sources@, k));
                }
            }
            assert forall|k: int| 0 <= k < sources@.len() implies !(#[trigger] sources@[k].text is Err) by {
                assert(sources@[k].text is Ok);
            }
            assert(all_read);
            assert(assembled_from(modules@, source_map, sources@));
        }
    }
    if diagnostics.len() > 0 {
        return Err(PackageLoadError { diagnostics, source_map });
    }
    let span = if items.len() > 0 {
        Span::new(items[0].span.start, items[items.len() - 1].span.end)
    } else {
        Span::zero()
    };
    let r: Result<Package, PackageLoadError> = Ok(Package { program: Node::new(span, ProgramKind { items }), source_map, modules });
    proof {
        assert(items_from(r->Ok_0.program.kind.items@, origin, sources@));
    }
    r
}

/// Reads one source into the package: records it in the source map at
/// `base` and as a module, then parses it; a parsed program is qualified by
/// its module path and its items, moved by `base`, appended to `items`.
/// Parse and qualification errors, moved by `base`, are appended to
/// `diagnostics`.
fn load_source(source: &SourceSpec, text: &String, base: usize, source_map: &mut PackageSourceMap, modules: &mut Vec<PackageModule>, items: &mut Vec<Item>, diagnostics: &mut Vec<Diagnostic>)
    ensures
        final(source_map).sources_view() == old(source_map).sources_view().push((source.name@, base,
            vstd::utf8::encode_utf8(text@).len() as usize)),
        forall|k: int| 0 <= k < old(source_map).sources_view().len() ==> final(source_map).source_text(k) == old(source_map).source_text(k),
        final(source_map).source_text(old(source_map).sources_view().len() as int) == text@,
        final(modules)@.len() == old(modules)@.len() + 1,
        forall|k: int| 0 <= k < old(modules)@.len() ==> final(modules)@[k] == old(modules)@[k],
        final(modules)@.last().name@ == source.module@,
        final(modules)@.last().source_name == source.name,
        final(diagnostics)@.len() >= old(diagnostics)@.len(),
        forall|j: int| 0 <= j < old(diagnostics)@.len() ==> final(diagnostics)@[j] == old(diagnostics)@[j],
        final(items)@.len() >= old(items)@.len(),
        forall|j: int| 0 <= j < old(items)@.len() ==> final(items)@[j] == old(items)@[j],
        forall|j: int| old(items)@.len() <= j < final(items)@.len() ==> named_in(#[trigger] final(items)@[j], source.module@),
        forall|j: int| old(items)@.len() <= j < final(items)@.len()
            ==> moved_span(#[trigger] final(items)@[j].span, base, vstd::utf8::encode_utf8(text@).len() as int),
        has_no_tokens(text@) ==> final(diagnostics)@ == old(diagnostics)@ && final(items)@ == old(items)@,
        crate::parser::const_decl_text(text@) ==> final(diagnostics)@ == old(diagnostics)@,
{
    source_map.add_source(source.name.clone(), text.clone(), base);
    let name = clone_names(&source.module);
    modules.push(PackageModule { name, source_name: source.name.clone() });
    let n = text.as_str().as_bytes().len();
    match parse_program(text.as_str()) {
        Ok(program) => {
            let mut program = program;
            let ghost old_program = program;
            let mut package_diagnostics = qualify_program(&mut program, &source.module);
            shift_diagnostics(&mut package_diagnostics, base);
            append_diagnostics(diagnostics, package_diagnostics);
            let ghost qualified = program;
            shift_program(&mut program, base);
            let mut program_items = program.kind.items;
            proof {
                assert forall|j: int| 0 <= j < program_items@.len()
                    implies moved_span(#[trigger] program_items@[j].span, base, vstd::utf8::encode_utf8(text@).len() as int) by {
                    lemma_item_shifted_span_and_name(qualified.kind.items@[j], program_items@[j], base);
                    assert(program_items@[j].span == shift_span_spec(qualified.kind.items@[j].span, base));
                    assert(qualified.kind.items@[j].span == old_program.kind.items@[j].span);
                    assert(crate::parser::span_in(old_program.kind.items@[j].span, vstd::utf8::encode_utf8(text@).len() as int));
                }
                assert forall|j: int| 0 <= j < program_items@.len() implies named_in(#[trigger] program_items@[j], source.module@) by {
                    lemma_item_shifted_span_and_name(qualified.kind.items@[j], program_items@[j], base);
                    assert(program_items@[j].span == shift_span_spec(qualified.kind.items@[j].span, base));
                    assert(item_name(program_items@[j]) == item_name(qualified.kind.items@[j]));
                    assert(item_name(qualified.kind.items@[j])
                        == qualified_item_name(source.module@, item_name(old_program.kind.items@[j])));
                    if let Some(n) = item_name(old_program.kind.items@[j]) {
                        assert(names_view(source.module@).push(n) == names_view(source.module@).push(n));
                    }
                }
            }
            items.append(&mut program_items);
        },
        Err(err) => {
            let mut parse_diagnostics = err.diagnostics;
            shift_diagnostics(&mut parse_diagnostics, base);
            append_diagnostics(diagnostics, parse_diagnostics);
        },
    }
}

/// Appends diagnostics to a list, in order.
fn append_diagnostics(diagnostics: &mut Vec<Diagnostic>, more: Vec<Diagnostic>)
    ensures
        final(diagnostics)@ == old(diagnostics)@ + more@,
{
    let mut more = more;
    diagnostics.append(&mut more);
}

/// `a`, `b` and `c` joined.
fn cat3(a: &str, b: &str, c: &str) -> (r: String)
    ensures
        r@ == a@ + b@ + c@,
{
    let mut s = owned(a);
    push_str(&mut s, b);
    push_str(&mut s, c);
    s
}

// ---------------------------------------------------------------------
// Laws of the merged span space

/// The length in bytes of source `k`'s text, when it was read.
pub open spec fn source_len(sources: Seq<SourceSpec>, k: int) -> int {
    match sources[k].text {
        Ok(text) => vstd::utf8::encode_utf8(text@).len() as int,
        Err(_) => 0,
    }
}

/// Where each source starts without the saturation at `usize::MAX`.
pub open spec fn unbounded_base(sources: Seq<SourceSpec>, k: int) -> int
    decreases k,
{
    if k <= 0 {
        0
    } else {
        match sources[k - 1].text {
            Ok(_) => unbounded_base(sources, k - 1) + source_len(sources, k - 1) + 1,
            Err(_) => unbounded_base(sources, k - 1),
        }
    }
}

proof fn lemma_unbounded_base_mono(sources: Seq<SourceSpec>, j: int, k: int)
    requires
        0 <= j <= k,
    ensures
        unbounded_base(sources, j) <= unbounded_base(sources, k),
    decreases k - j,
{
    if j < k {
        lemma_unbounded_base_mono(sources, j, k - 1);
    }
}

/// While the merged span space does not overflow, the bases do not
/// saturate.
proof fn lemma_base_exact(sources: Seq<SourceSpec>, k: int, n: int)
    requires
        0 <= k <= n,
        unbounded_base(sources, n) <= usize::MAX,
    ensures
        source_base(sources, k) as int == unbounded_base(sources, k),
    decreases k,
{
    if k > 0 {
        lemma_base_exact(sources, k - 1, n);
        lemma_unbounded_base_mono(sources, k, n);
    }
}

/// A source read before another ends before that one starts.
proof fn lemma_sources_ordered(sources: Seq<SourceSpec>, j: int, k: int)
    requires
        0 <= j < k,
        sources[j].text is Ok,
    ensures
        unbounded_base(sources, j) + source_len(sources, j) < unbounded_base(sources, k),
    decreases k - j,
{
    if j + 1 < k {
        lemma_sources_ordered(sources, j, k - 1);
        lemma_unbounded_base_mono(sources, k - 1, k);
    }
}

/// The package source map gives diagnostics back to the file they came
/// from: in a package assembled from its sources, an offset `o` within the
/// text of source `k` (its end included) lies at `source_base(k) + o` in the
/// merged span space, and the source map resolves that merged offset to
/// source `k`, whose rendering then shows the position local to `k`. This
/// holds while the merged span space does not exceed `usize::MAX`.
pub proof fn lemma_merged_offset_resolves(modules: Seq<PackageModule>, map: PackageSourceMap, sources: Seq<SourceSpec>, k: int, o: int)
    requires
        assembled_from(modules, map, sources),
        0 <= k < sources.len(),
        0 <= o <= source_len(sources, k),
        unbounded_base(sources, sources.len() as int) <= usize::MAX,
    ensures
        map.source_index_for((source_base(sources, k) + o) as usize) == Some(k),
        sat_sub((source_base(sources, k) + o) as usize, map.sources_view()[k].1) == o,
{
    let n = sources.len() as int;
    let v = map.sources_view();
    assert(entry_matches(modules, map, sources, k));
    lemma_base_exact(sources, k, n);
    lemma_unbounded_base_mono(sources, k + 1, n);
    assert(sources[k].text is Ok);
    let offset = (source_base(sources, k) + o) as usize;
    assert(source_holds(v[k].1, v[k].2, offset));
    assert forall|j: int| 0 <= j < k implies !source_holds(v[j].1, v[j].2, offset) by {
        assert(entry_matches(modules, map, sources, j));
        assert(sources[j].text is Ok);
        lemma_base_exact(sources, j, n);
        lemma_sources_ordered(sources, j, k);
    }
    assert forall|i: int| 0 <= i < v.len() && source_holds(v[i].1, v[i].2, offset)
        && (forall|j: int| 0 <= j < i ==> !source_holds(v[j].1, v[j].2, offset)) implies i == k by {
        if i < k {
        } else if i > k {
            assert(!source_holds(v[k].1, v[k].2, offset));
        }
    }
}

/// Every item of a loaded package lies in the source it was declared in:
/// the source map finds that source at the item's first byte, at a local
/// offset within the source's text, and the item's name is inside that
/// source's module. This holds when the merged span space fits in a
/// `usize`.
pub proof fn lemma_item_resolves_to_its_source(p: Package, sources: Seq<SourceSpec>, origin: Seq<int>, j: int)
    requires
        assembled_from(p.modules@, p.source_map, sources),
        items_from(p.program.kind.items@, origin, sources),
        unbounded_base(sources, sources.len() as int) <= usize::MAX,
        0 <= j < p.program.kind.items@.len(),
    ensures
        p.source_map.source_index_for(p.program.kind.items@[j].span.start) == Some(origin[j]),
        sat_sub(p.program.kind.items@[j].span.start, p.source_map.sources_view()[origin[j]].1) <= source_len(sources, origin[j]),
        named_in(p.program.kind.items@[j], sources[origin[j]].module@),
{
    let n = sources.len() as int;
    let k = origin[j];
    let item = p.program.kind.items@[j];
    let local = choose|local: Span| #[trigger] shift_span_spec(local, source_base(sources, k)) == item.span
        && crate::parser::span_in(local, source_len(sources, k));
    assert(sources[k].text is Ok);
    lemma_base_exact(sources, k, n);
    lemma_unbounded_base_mono(sources, k + 1, n);
    assert(unbounded_base(sources, k + 1) == unbounded_base(sources, k) + source_len(sources, k) + 1);
    assert(item.span.start == (source_base(sources, k) + local.start) as usize);
    lemma_merged_offset_resolves(p.modules@, p.source_map, sources, k, local.start as int);
}

/// The module of a file is its directory's module path followed by the
/// file name without `.tess`; `main.tess`, `lib.tess` and `mod.tess` define
/// the directory's module itself (for the source root, the package root).
pub proof fn lemma_module_path_of_file(dirs: Seq<Seq<char>>, file: Seq<char>)
    ensures
        module_path_of(dirs.push(file)) == if is_module_root_name(strip_tess(file)) {
            dirs
        } else {
            dirs.push(strip_tess(file))
        },
{
    let c = dirs.push(file).update(dirs.len() as int, strip_tess(file));
    assert(c =~= dirs.push(strip_tess(file)));
    assert(c.drop_last() =~= dirs);
}

/// Items of the package root module keep their names: qualification by
/// the empty module path is the identity.
pub proof fn lemma_root_module_names_unchanged(name: Seq<char>)
    ensures
        qualified_item_name(Seq::<String>::empty(), Some(name)) == Some(name),
{
    assert(names_view(Seq::<String>::empty()).push(name) =~= seq![name]);
}

} // verus!
