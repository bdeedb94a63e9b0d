//! TessHIR front end: lexing, parsing, package assembly and type checking
//! for the Tessera language, with contracts checked by Verus.

pub mod text;
pub mod span;
pub mod diagnostic;
pub mod num;
pub mod ast;
pub mod lexer;
pub mod parser;
pub mod typeck;
pub mod package;
pub mod samples;

pub use diagnostic::{Diagnostic, DiagnosticSeverity};
pub use package::{
    load_package_sources, module_path_for_components, Package, PackageLoadError, PackageModule,
    PackageOptions, PackageSourceMap, SourceSpec, skips_directory, stdlib_sources,
};
pub use parser::{parse_program, ParseError};
pub use span::{Node, SourceFile, Span};
pub use typeck::{check_program, TypeCheckReport};
