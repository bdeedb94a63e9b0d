# tesshir

The front end of the Tessera language: a lexer, a parser producing the
TessHIR syntax tree, a package loader that merges the modules of a package
into one program, and a type checker for const integers, enums and
interfaces. The library is written in Verus: its functions carry contracts
that Verus proves.

## Layout

- `src/text.rs`: string helpers used to build messages.
- `src/span.rs`: byte spans, span-carrying nodes, line/column lookup.
- `src/diagnostic.rs`: diagnostics and their one-line rendering.
- `src/num.rs`: arbitrary-precision integers, backed by `num-bigint`.
- `src/ast.rs`: the TessHIR syntax tree.
- `src/lexer.rs`: the lexer, specified by a lexical grammar over characters.
- `src/parser.rs`: the recursive-descent parser.
- `src/package.rs`: module paths, name qualification, span shifting, the
  merged program and its source map.
- `src/typeck.rs`: the type checker.
- `src/samples.rs`: small programs used by the tests.
- `app/main.rs`: the `tesshir` command: argument handling, discovery and
  reading of source files, printing.
- `tests/`: tests of the library.

## Contracts and laws

Among what is proved:

- the lexer's output is exactly the tokens of its lexical grammar, in
  source order and ending with `Eof`;
- a failed parse reports every diagnostic as an error with a message, at an
  ordered span inside the source text; the parser's steps say which kind of
  item, type, pattern or expression each leading token selects; a text of
  no tokens parses to the empty program, and a parsed program of a text
  that has tokens holds at least one item, of the kind its first keyword
  names; a text of declarations `const N: T = V;` (an integer type and an
  integer literal) parses, to such constants; a parsed type starts where
  its first token does and is of the kind that token selects, a reference
  type is mutable exactly when `mut` follows the `&`, and the type inside
  a reference or array is of the kind its own first token selects; a
  parsed path or enum pattern has the identifiers of its tokens as its
  segments, and an enum pattern's arguments are positional, named or none
  as the token after the path says;
- integer range checks and constant folding are exact over unbounded
  integers (a left shift by any `usize` amount is computed; only memory
  bounds it); type and constant renderings in messages are exact; replacing
  `Self` or generic parameters in a type is exact up to how the type is
  written;
- every diagnostic of the checker is an error, and the checker never takes
  one back; a program of constants only, whose expressions are free of
  names and have values that fit their types, gets exactly the errors for
  its redeclarations (none when the names differ); its report opens with one error for each item that redeclares a
  name of its name space, in item order, and reports every constant (the
  last declaration of its name) whose expression, free of names, has a
  value that does not fit its type, and every function parameter whose
  type names one of the program's interfaces (not shadowed by a type
  parameter of the function) as no value type; with no redeclaration, the
  report opens with the errors of the constant whose name comes first,
  when that constant's expression is free of names;
- every interface that lies on an inheritance cycle is reported by name,
  every impl of an interface that lacks one of the interface's own methods
  is reported at the impl, naming the method, and two different impls of
  one interface for the same primitive type, or the same named type
  without arguments, are reported as conflicting;
- a constant expression whose names are declared constants with closed
  expressions evaluates to the value those constants give it (a name
  stands for its constant's value when that value fits the constant's
  type); evaluating an expression free of names reports exactly one error
  for its first failing operation or cast, and none when it has a value;
  a const parameter stays symbolic, with no diagnostic; evaluating
  a constant leaves the set of constants under evaluation as it found it,
  so a constant whose evaluation failed is never taken for a cycle by the
  constants that use it; an expression whose names are const parameters
  or such constants, and whose operations and casts succeed where they
  are reached, reports nothing and has its value (none where a const
  parameter is used, so `N + 1` stays symbolic), and a constant with such
  an expression reports at most that its value does not fit its type;
- every `where` predicate of a function that equates two such expressions
  of different values is reported with both values, and every enum
  discriminant and interface constant default made of such an expression
  whose value does not fit its type is reported with its value, as is
  every constant argument, free of names, that does not fit the type of
  its constant parameter; an unknown type, a type parameter given
  arguments, and a wrong number of generic arguments are reported;
- in the checker's typing of expressions, a variable has the type it was
  bound with, node for node, and a binding pattern binds its name to the
  type it is matched against; a match on a variable of an enum type whose
  arms name, at their top level, not every variant, and none of which
  matches everything, is reported as not exhaustive (variants named inside
  sub-patterns do not count), and at the level of a whole program a
  function whose body is such a match on one of its parameters is
  reported; an `if` has the type of its `then` branch
  unless that branch diverges, and then that of its `else` branch, and
  diverges only when both do (a missing `else` is a unit branch that does
  not diverge), where a branch without a tail is of unit type, a branch
  with a `return` statement diverges, and a literal tail gives the
  literal's type; an `if` on a `bool` literal or variable whose branches
  are literal tails reports nothing when the branch types agree and one
  error when they differ; a binary operation reports, exactly once, that
  its operands are not integers of one type (arithmetic), of different
  types (comparison) or not both `bool` (logical), where the left operand
  is of an integer, `bool` or unit type;
- a positional enum constructor fills in each of the enum's type
  parameters from the first argument declared as that parameter (an
  integer literal there gives its integer type), and leaves a parameter
  no argument gives as itself; a positional constructor whose payload
  types are the enum's type parameters, none twice, given as many fitting
  literals, reports nothing;
- an impl constant whose type differs from that of the interface's own
  declaration of that constant is reported with both types;
- an enum variant that repeats the name of an earlier variant, or whose
  discriminant, free of names, has the value of an earlier one, is
  reported;
- qualifying a source file rewrites exactly the names the package rules
  say, node by node, and the only diagnostics it adds are errors that a
  path needs an explicit `use` of its root; moving a file into the merged
  span space moves
  every span inside every item by the file's base and changes nothing
  else;
- source-file module paths and qualified item names follow the package
  rules; every item of a merged program comes from a source, in source
  order, named inside that source's module;
- a package whose sources hold no tokens, one of them outside the
  standard library, loads as the empty program, and one whose sources
  hold only declarations `const N: T = V;` loads;
- in a loaded package every offset of a source resolves back to that
  source, so diagnostics render at their local line and column, and every
  merged item is found by the source map in the source that declared it.
