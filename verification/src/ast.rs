//! The source syntax tree of Tessera programs.

use vstd::prelude::*;
use crate::num::IntValue;
use crate::span::{Node, Span};
use crate::text::{int_decimal, nat_decimal, push_char, push_str, push_string};

verus! {

pub type Symbol = String;

pub type Path = Node<PathKind>;
pub type Program = Node<ProgramKind>;
pub type Item = Node<ItemKind>;
pub type UseItem = Node<UseItemKind>;
pub type Ty = Node<TyKind>;
pub type GenericArg = Node<GenericArgKind>;
pub type ConstExpr = Node<ConstExprKind>;
pub type GenericParam = Node<GenericParamKind>;
pub type InterfaceRef = Node<InterfaceRefKind>;
pub type WherePredicate = Node<WherePredicateKind>;
pub type StructItem = Node<StructItemKind>;
pub type Field = Node<FieldKind>;
pub type EnumItem = Node<EnumItemKind>;
pub type EnumVariant = Node<EnumVariantKind>;
pub type VariantPayload = Node<VariantPayloadKind>;
pub type InterfaceItem = Node<InterfaceItemKind>;
pub type InterfaceMember = Node<InterfaceMemberKind>;
pub type AssocConstSig = Node<AssocConstSigKind>;
pub type MethodSig = Node<MethodSigKind>;
pub type Receiver = Node<ReceiverKind>;
pub type Param = Node<ParamKind>;
pub type ImplItem = Node<ImplItemKind>;
pub type ImplMember = Node<ImplMemberKind>;
pub type AssocConstImpl = Node<AssocConstImplKind>;
pub type MethodDef = Node<MethodDefKind>;
pub type FnItem = Node<FnItemKind>;
pub type Expr = Node<ExprKind>;
pub type Block = Node<BlockKind>;
pub type Stmt = Node<StmtKind>;
pub type LetStmt = Node<LetStmtKind>;
pub type FieldExpr = Node<FieldExprKind>;
pub type EnumCtorArgs = Node<EnumCtorArgsKind>;
pub type MatchArm = Node<MatchArmKind>;
pub type Pat = Node<PatKind>;
pub type EnumPatArgs = Node<EnumPatArgsKind>;
pub type FieldPat = Node<FieldPatKind>;
pub type ConstItem = Node<ConstItemKind>;

/// A possibly qualified name such as `Option` or `std::option::Option`.
#[derive(Clone, Debug)]
pub struct PathKind {
    pub segments: Vec<Symbol>,
}

/// The segments of a path joined with `::`.
pub open spec fn join_segments(segments: Seq<Seq<char>>) -> Seq<char>
    decreases segments.len(),
{
    if segments.len() == 0 {
        Seq::empty()
    } else if segments.len() == 1 {
        segments[0]
    } else {
        join_segments(segments.drop_last()) + seq![':', ':'] + segments.last()
    }
}

impl PathKind {
    /// The characters of each segment.
    pub open spec fn segment_views(&self) -> Seq<Seq<char>> {
        self.segments@.map_values(|s: String| s@)
    }

    /// A path of one segment.
    pub fn single(name: Symbol) -> (r: PathKind)
        ensures
            r.segments@ == seq![name],
    {
        let mut segments = Vec::new();
        segments.push(name);
        proof {
            assert(segments@ =~= seq![name]);
        }
        PathKind { segments }
    }
}

/// The path's segments joined with `::`.
pub fn path_name(path: &Path) -> (r: String)
    ensures
        r@ == join_segments(path.kind.segment_views()),
{
    let segs = &path.kind.segments;
    let ghost views = path.kind.segment_views();
    let mut out = String::new();
    let mut i: usize = 0;
    proof {
        assert(views.take(0) =~= Seq::<Seq<char>>::empty());
    }
    while i < segs.len()
        invariant
            0 <= i <= segs@.len(),
            views == segs@.map_values(|s: String| s@),
            out@ == join_segments(views.take(i as int)),
        decreases segs@.len() - i,
    {
        if i > 0 {
            push_str(&mut out, "::");
        }
        push_string(&mut out, &segs[i]);
        proof {
            reveal_strlit("::");
            let t = views.take(i as int + 1);
            assert(t.drop_last() =~= views.take(i as int));
            if i == 0 {
                assert(t.len() == 1);
                assert(out@ =~= t[0]);
            } else {
                assert(out@ =~= join_segments(t.drop_last()) + seq![':', ':'] + t.last());
            }
        }
        i = i + 1;
    }
    proof {
        assert(views.take(segs@.len() as int) =~= views);
    }
    out
}

/// A one-segment path with the empty span.
pub fn synthetic_path(name: Symbol) -> (r: Path)
    ensures
        r.span == Span::default_spec(),
        r.kind.segments@ == seq![name],
{
    Node::new(Span::zero(), PathKind::single(name))
}

/// A whole source file: its items in order.
#[derive(Debug)]
pub struct ProgramKind {
    pub items: Vec<Item>,
}

#[derive(Debug)]
pub enum ItemKind {
    Use(UseItem),
    Const(ConstItem),
    Struct(StructItem),
    Enum(EnumItem),
    Interface(InterfaceItem),
    Impl(ImplItem),
    Fn(FnItem),
}

/// `use a::b;`: a declared dependency on another module's item.
#[derive(Clone, Debug)]
pub struct UseItemKind {
    pub path: Path,
}

#[derive(Clone, Copy, Debug, PartialEq, Eq, Hash, Structural)]
pub enum Signedness {
    Signed,
    Unsigned,
}

#[derive(Clone, Copy, Debug, PartialEq, Eq, Hash, Structural)]
pub enum IntWidth {
    W8,
    W16,
    W32,
    W64,
    W128,
    Size,
}

/// A primitive integer type such as `u8` or `isize`.
#[derive(Clone, Copy, Debug, PartialEq, Eq, Hash, Structural)]
pub struct IntTy {
    pub signedness: Signedness,
    pub width: IntWidth,
}

/// The number of bits of an integer width; `size` types have 64.
pub open spec fn width_bits(width: IntWidth) -> nat {
    match width {
        IntWidth::W8 => 8,
        IntWidth::W16 => 16,
        IntWidth::W32 => 32,
        IntWidth::W64 => 64,
        IntWidth::W128 => 128,
        IntWidth::Size => 64,
    }
}

/// The source name of an integer type, such as `u8` or `isize`.
pub open spec fn int_ty_name(ty: IntTy) -> Seq<char> {
    let prefix = match ty.signedness {
        Signedness::Signed => 'i',
        Signedness::Unsigned => 'u',
    };
    match ty.width {
        IntWidth::Size => seq![prefix, 's', 'i', 'z', 'e'],
        _ => seq![prefix] + nat_decimal(width_bits(ty.width)),
    }
}

impl IntTy {
    pub fn new(signedness: Signedness, width: IntWidth) -> (r: IntTy)
        ensures
            r.signedness == signedness,
            r.width == width,
    {
        IntTy { signedness, width }
    }

    pub fn i32() -> (r: IntTy)
        ensures
            r == (IntTy { signedness: Signedness::Signed, width: IntWidth::W32 }),
    {
        IntTy::new(Signedness::Signed, IntWidth::W32)
    }

    pub fn i64() -> (r: IntTy)
        ensures
            r == (IntTy { signedness: Signedness::Signed, width: IntWidth::W64 }),
    {
        IntTy::new(Signedness::Signed, IntWidth::W64)
    }

    pub fn u8() -> (r: IntTy)
        ensures
            r == (IntTy { signedness: Signedness::Unsigned, width: IntWidth::W8 }),
    {
        IntTy::new(Signedness::Unsigned, IntWidth::W8)
    }

    pub fn usize() -> (r: IntTy)
        ensures
            r == (IntTy { signedness: Signedness::Unsigned, width: IntWidth::Size }),
    {
        IntTy::new(Signedness::Unsigned, IntWidth::Size)
    }

    pub fn bits(self) -> (r: u32)
        ensures
            r as nat == width_bits(self.width),
    {
        match self.width {
            IntWidth::W8 => 8,
            IntWidth::W16 => 16,
            IntWidth::W32 => 32,
            IntWidth::W64 => 64,
            IntWidth::W128 => 128,
            IntWidth::Size => 64,
        }
    }

    /// The source name of the type, as `Display` renders it.
    pub fn to_string(self) -> (r: String)
        ensures
            r@ == int_ty_name(self),
    {
        let mut s = String::new();
        let prefix = match self.signedness {
            Signedness::Signed => 'i',
            Signedness::Unsigned => 'u',
        };
        push_char(&mut s, prefix);
        match self.width {
            IntWidth::Size => {
                push_str(&mut s, "size");
                proof {
                    reveal_strlit("size");
                    assert(s@ =~= int_ty_name(self));
                }
            },
            _ => {
                let bits = self.bits();
                crate::text::push_usize(&mut s, bits as usize);
                proof {
                    assert(s@ =~= int_ty_name(self));
                }
            },
        }
        s
    }
}

#[derive(Debug)]
pub enum TyKind {
    Unit,
    Bool,
    Never,
    Int(IntTy),
    Path { path: Path, args: Vec<GenericArg> },
    SelfTy,
    Array { elem: Box<Ty>, len: ConstExpr },
    Ref { mutability: Mutability, ty: Box<Ty> },
    Fn { params: Vec<Ty>, ret: Box<Ty> },
}

#[derive(Clone, Copy, Debug, PartialEq, Eq, Hash, Structural)]
pub enum Mutability {
    Shared,
    Mutable,
}

#[derive(Debug)]
pub enum GenericArgKind {
    Ty(Ty),
    Const(ConstExpr),
}

#[derive(Debug)]
pub enum ConstExprKind {
    IntLit(IntValue),
    Path(Path),
    Param(Symbol),
    AssocConst { ty: Box<Ty>, interface: Path, name: Symbol },
    Unary { op: ConstUnaryOp, expr: Box<ConstExpr> },
    Binary { op: ConstBinaryOp, lhs: Box<ConstExpr>, rhs: Box<ConstExpr> },
    Cast { expr: Box<ConstExpr>, ty: IntTy },
}

#[derive(Clone, Copy, Debug, PartialEq, Eq, Hash, Structural)]
pub enum ConstUnaryOp {
    Plus,
    Neg,
}

#[derive(Clone, Copy, Debug, PartialEq, Eq, Hash, Structural)]
pub enum ConstBinaryOp {
    Add,
    Sub,
    Mul,
    Div,
    Rem,
    Shl,
    Shr,
    BitAnd,
    BitOr,
    BitXor,
}

#[derive(Debug)]
pub struct ConstItemKind {
    pub name: Symbol,
    pub ty: IntTy,
    pub expr: ConstExpr,
}

#[derive(Debug)]
pub enum GenericParamKind {
    Type { name: Symbol, bounds: Vec<InterfaceRef> },
    Const { name: Symbol, ty: IntTy },
}

#[derive(Debug)]
pub struct InterfaceRefKind {
    pub path: Path,
    pub args: Vec<GenericArg>,
}

#[derive(Debug)]
pub enum WherePredicateKind {
    Implements { ty: Ty, interface: InterfaceRef },
    ConstEq { lhs: ConstExpr, rhs: ConstExpr },
}

#[derive(Debug)]
pub struct StructItemKind {
    pub name: Symbol,
    pub generics: Vec<GenericParam>,
    pub where_predicates: Vec<WherePredicate>,
    pub fields: Vec<Field>,
}

#[derive(Debug)]
pub struct FieldKind {
    pub name: Symbol,
    pub ty: Ty,
}

#[derive(Debug)]
pub struct EnumItemKind {
    pub name: Symbol,
    pub generics: Vec<GenericParam>,
    pub where_predicates: Vec<WherePredicate>,
    pub repr: Option<IntTy>,
    pub variants: Vec<EnumVariant>,
}

#[derive(Debug)]
pub struct EnumVariantKind {
    pub name: Symbol,
    pub payload: VariantPayload,
    pub discriminant: Option<ConstExpr>,
}

#[derive(Debug)]
pub enum VariantPayloadKind {
    Unit,
    Tuple(Vec<Ty>),
    Struct(Vec<Field>),
}

#[derive(Debug)]
pub struct InterfaceItemKind {
    pub name: Symbol,
    pub generics: Vec<GenericParam>,
    pub super_interfaces: Vec<InterfaceRef>,
    pub members: Vec<InterfaceMember>,
}

#[derive(Debug)]
pub enum InterfaceMemberKind {
    Method(MethodSig),
    AssocConst(AssocConstSig),
}

#[derive(Debug)]
pub struct AssocConstSigKind {
    pub name: Symbol,
    pub ty: IntTy,
    pub default: Option<ConstExpr>,
}

#[derive(Debug)]
pub struct MethodSigKind {
    pub name: Symbol,
    pub generics: Vec<GenericParam>,
    pub receiver: Option<Receiver>,
    pub params: Vec<Param>,
    pub ret: Ty,
}

#[derive(Clone, Copy, Debug, PartialEq, Eq, Structural)]
pub enum ReceiverKind {
    ByValue,
    ByRef { mutability: Mutability },
}

#[derive(Debug)]
pub struct ParamKind {
    pub name: Symbol,
    pub ty: Ty,
}

#[derive(Debug)]
pub struct ImplItemKind {
    pub generics: Vec<GenericParam>,
    pub where_predicates: Vec<WherePredicate>,
    pub interface: Option<InterfaceRef>,
    pub self_ty: Ty,
    pub members: Vec<ImplMember>,
}

#[derive(Debug)]
pub enum ImplMemberKind {
    Method(MethodDef),
    AssocConst(AssocConstImpl),
}

#[derive(Debug)]
pub struct AssocConstImplKind {
    pub name: Symbol,
    pub ty: IntTy,
    pub expr: ConstExpr,
}

#[derive(Debug)]
pub struct MethodDefKind {
    pub sig: MethodSig,
    pub body: Expr,
}

#[derive(Debug)]
pub struct FnItemKind {
    pub name: Symbol,
    pub generics: Vec<GenericParam>,
    pub where_predicates: Vec<WherePredicate>,
    pub params: Vec<Param>,
    pub ret: Ty,
    pub body: Expr,
}

#[derive(Debug)]
pub enum ExprKind {
    UnitLit,
    BoolLit(bool),
    IntLit(IntValue),
    Var(Symbol),
    Unary { op: UnaryOp, expr: Box<Expr> },
    Binary { op: BinaryOp, lhs: Box<Expr>, rhs: Box<Expr> },
    Call { callee: Box<Expr>, args: Vec<Expr> },
    MethodCall { receiver: Box<Expr>, method: Symbol, args: Vec<Expr> },
    StructLit { path: Path, fields: Vec<FieldExpr> },
    EnumCtor { enum_path: Path, variant: Symbol, args: EnumCtorArgs },
    Field { base: Box<Expr>, name: Symbol },
    Index { base: Box<Expr>, index: Box<Expr> },
    Match { scrutinee: Box<Expr>, arms: Vec<MatchArm> },
    If { cond: Box<Expr>, then_branch: Block, else_branch: Option<Block> },
    Block(Block),
    Return(Option<Box<Expr>>),
    Assign { lhs: Box<Expr>, rhs: Box<Expr> },
    Todo,
}

#[derive(Clone, Copy, Debug, PartialEq, Eq, Structural)]
pub enum UnaryOp {
    Neg,
    Not,
}

#[derive(Clone, Copy, Debug, PartialEq, Eq, Structural)]
pub enum BinaryOp {
    Add,
    Sub,
    Mul,
    Div,
    Rem,
    Eq,
    Ne,
    Lt,
    Le,
    Gt,
    Ge,
    And,
    Or,
    BitAnd,
    BitOr,
    BitXor,
    Shl,
    Shr,
}

#[derive(Debug)]
pub struct BlockKind {
    pub stmts: Vec<Stmt>,
    pub tail: Option<Box<Expr>>,
}

#[derive(Debug)]
pub enum StmtKind {
    Let(LetStmt),
    Expr(Expr),
    Semi(Expr),
}

#[derive(Debug)]
pub struct LetStmtKind {
    pub name: Symbol,
    pub ty: Option<Ty>,
    pub init: Option<Expr>,
}

#[derive(Debug)]
pub struct FieldExprKind {
    pub name: Symbol,
    pub expr: Expr,
}

#[derive(Debug)]
pub enum EnumCtorArgsKind {
    Unit,
    Tuple(Vec<Expr>),
    Struct(Vec<FieldExpr>),
}

#[derive(Debug)]
pub struct MatchArmKind {
    pub pat: Pat,
    pub body: Expr,
}

#[derive(Debug)]
pub enum PatKind {
    Wildcard,
    Binding { name: Symbol },
    Unit,
    BoolLit(bool),
    IntLit(IntValue),
    EnumVariant { enum_path: Path, variant: Symbol, args: EnumPatArgs },
    Struct { path: Path, fields: Vec<FieldPat> },
}

#[derive(Debug)]
pub enum EnumPatArgsKind {
    Unit,
    Tuple(Vec<Pat>),
    Struct(Vec<FieldPat>),
}

#[derive(Debug)]
pub struct FieldPatKind {
    pub name: Symbol,
    pub pat: Pat,
}

pub fn ty_unit(span: Span) -> (r: Ty)
    ensures
        r.span == span,
        r.kind is Unit,
{
    Node::new(span, TyKind::Unit)
}

pub fn ty_bool(span: Span) -> (r: Ty)
    ensures
        r.span == span,
        r.kind is Bool,
{
    Node::new(span, TyKind::Bool)
}

pub fn ty_int(span: Span, ty: IntTy) -> (r: Ty)
    ensures
        r.span == span,
        r.kind == TyKind::Int(ty),
{
    Node::new(span, TyKind::Int(ty))
}

/// A named type with no generic arguments.
pub fn ty_path(span: Span, name: Symbol) -> (r: Ty)
    ensures
        r.span == span,
        r.kind matches TyKind::Path { path, args } && path.span == span
            && path.kind.segments@ == seq![name] && args@.len() == 0,
{
    Node::new(span, TyKind::Path { path: Node::new(span, PathKind::single(name)), args: Vec::new() })
}

pub fn ty_ref(span: Span, mutability: Mutability, ty: Ty) -> (r: Ty)
    ensures
        r.span == span,
        r.kind matches TyKind::Ref { mutability: m, ty: inner } && m == mutability && *inner == ty,
{
    Node::new(span, TyKind::Ref { mutability, ty: Box::new(ty) })
}

/// An integer literal constant expression.
pub fn const_int(span: Span, value: IntValue) -> (r: ConstExpr)
    ensures
        r.span == span,
        r.kind matches ConstExprKind::IntLit(v) && v@ == value@,
{
    Node::new(span, ConstExprKind::IntLit(value))
}

// ---------------------------------------------------------------------
// How syntax is written

/// The `Debug` name of a constant binary operator.
pub open spec fn const_binop_name(op: ConstBinaryOp) -> Seq<char> {
    match op {
        ConstBinaryOp::Add => "Add"@,
        ConstBinaryOp::Sub => "Sub"@,
        ConstBinaryOp::Mul => "Mul"@,
        ConstBinaryOp::Div => "Div"@,
        ConstBinaryOp::Rem => "Rem"@,
        ConstBinaryOp::Shl => "Shl"@,
        ConstBinaryOp::Shr => "Shr"@,
        ConstBinaryOp::BitAnd => "BitAnd"@,
        ConstBinaryOp::BitOr => "BitOr"@,
        ConstBinaryOp::BitXor => "BitXor"@,
    }
}

/// How a type is written in diagnostics.
pub open spec fn ty_text(ty: Ty) -> Seq<char> {
    ty_text_with(ty, "Self"@)
}

/// Types separated by `, `.
pub open spec fn tys_text(tys: Seq<Ty>) -> Seq<char> {
    tys_text_with(tys, "Self"@)
}

/// Generic arguments separated by `, `.
pub open spec fn args_text(args: Seq<GenericArg>) -> Seq<char> {
    args_text_with(args, "Self"@)
}

/// How a generic argument is written in diagnostics.
pub open spec fn arg_text(arg: GenericArg) -> Seq<char> {
    arg_text_with(arg, "Self"@)
}

/// How a constant expression is written in diagnostics.
pub open spec fn const_text(e: ConstExpr) -> Seq<char> {
    const_text_with(e, "Self"@)
}

/// How a type is written when `Self` in it is written `self_text`.
pub open spec fn ty_text_with(ty: Ty, self_text: Seq<char>) -> Seq<char>
    decreases ty,
{
    match ty.kind {
        TyKind::Unit => "()"@,
        TyKind::Bool => "bool"@,
        TyKind::Never => "!"@,
        TyKind::Int(i) => int_ty_name(i),
        TyKind::SelfTy => self_text,
        TyKind::Path { path, args } => {
            if args@.len() == 0 {
                join_segments(path.kind.segment_views())
            } else {
                join_segments(path.kind.segment_views()) + "<"@ + args_text_with(args@, self_text) + ">"@
            }
        },
        TyKind::Array { elem, len } => "["@ + ty_text_with(*elem, self_text) + "; "@
            + const_text_with(len, self_text) + "]"@,
        TyKind::Ref { mutability, ty: inner } => match mutability {
            Mutability::Shared => "&"@ + ty_text_with(*inner, self_text),
            Mutability::Mutable => "&mut "@ + ty_text_with(*inner, self_text),
        },
        TyKind::Fn { params, ret } => "fn("@ + tys_text_with(params@, self_text) + ") -> "@
            + ty_text_with(*ret, self_text),
    }
}

/// Types separated by `, `, `Self` written `self_text`.
pub open spec fn tys_text_with(tys: Seq<Ty>, self_text: Seq<char>) -> Seq<char>
    decreases tys,
{
    if tys.len() == 0 {
        Seq::empty()
    } else if tys.len() == 1 {
        ty_text_with(tys[0], self_text)
    } else {
        tys_text_with(tys.subrange(0, tys.len() - 1), self_text) + ", "@ + ty_text_with(tys[tys.len() - 1], self_text)
    }
}

/// Generic arguments separated by `, `, `Self` written `self_text`.
pub open spec fn args_text_with(args: Seq<GenericArg>, self_text: Seq<char>) -> Seq<char>
    decreases args,
{
    if args.len() == 0 {
        Seq::empty()
    } else if args.len() == 1 {
        arg_text_with(args[0], self_text)
    } else {
        args_text_with(args.subrange(0, args.len() - 1), self_text) + ", "@ + arg_text_with(args[args.len() - 1], self_text)
    }
}

/// How a generic argument is written, `Self` written `self_text`.
pub open spec fn arg_text_with(arg: GenericArg, self_text: Seq<char>) -> Seq<char>
    decreases arg,
{
    match arg.kind {
        GenericArgKind::Ty(t) => ty_text_with(t, self_text),
        GenericArgKind::Const(e) => const_text_with(e, self_text),
    }
}

/// How a constant expression is written, `Self` written `self_text`.
pub open spec fn const_text_with(e: ConstExpr, self_text: Seq<char>) -> Seq<char>
    decreases e,
{
    match e.kind {
        ConstExprKind::IntLit(v) => int_decimal(v@),
        ConstExprKind::Path(p) => join_segments(p.kind.segment_views()),
        ConstExprKind::Param(n) => n@,
        ConstExprKind::AssocConst { ty, interface, name } => "<"@ + ty_text_with(*ty, self_text) + " as "@
            + join_segments(interface.kind.segment_views()) + ">::"@ + name@,
        ConstExprKind::Unary { op, expr } => match op {
            ConstUnaryOp::Plus => "+"@ + const_text_with(*expr, self_text),
            ConstUnaryOp::Neg => "-"@ + const_text_with(*expr, self_text),
        },
        ConstExprKind::Binary { op, lhs, rhs } => "("@ + const_text_with(*lhs, self_text) + " "@
            + const_binop_name(op) + " "@ + const_text_with(*rhs, self_text) + ")"@,
        ConstExprKind::Cast { expr, ty } => const_text_with(*expr, self_text) + " as "@ + int_ty_name(ty),
    }
}

/// Lists written item by item alike are written alike.
pub proof fn lemma_tys_text_pointwise(a: Seq<Ty>, sa: Seq<char>, b: Seq<Ty>, sb: Seq<char>)
    requires
        a.len() == b.len(),
        forall|k: int| 0 <= k < a.len() ==> ty_text_with(#[trigger] a[k], sa) == ty_text_with(b[k], sb),
    ensures
        tys_text_with(a, sa) == tys_text_with(b, sb),
    decreases a.len(),
{
    if a.len() > 1 {
        let a1 = a.subrange(0, a.len() - 1);
        let b1 = b.subrange(0, b.len() - 1);
        assert forall|k: int| 0 <= k < a1.len() implies ty_text_with(#[trigger] a1[k], sa) == ty_text_with(b1[k], sb) by {
            assert(a1[k] == a[k] && b1[k] == b[k]);
        }
        lemma_tys_text_pointwise(a1, sa, b1, sb);
    }
}

/// Argument lists written item by item alike are written alike.
pub proof fn lemma_args_text_pointwise(a: Seq<GenericArg>, sa: Seq<char>, b: Seq<GenericArg>, sb: Seq<char>)
    requires
        a.len() == b.len(),
        forall|k: int| 0 <= k < a.len() ==> arg_text_with(#[trigger] a[k], sa) == arg_text_with(b[k], sb),
    ensures
        args_text_with(a, sa) == args_text_with(b, sb),
    decreases a.len(),
{
    if a.len() > 1 {
        let a1 = a.subrange(0, a.len() - 1);
        let b1 = b.subrange(0, b.len() - 1);
        assert forall|k: int| 0 <= k < a1.len() implies arg_text_with(#[trigger] a1[k], sa) == arg_text_with(b1[k], sb) by {
            assert(a1[k] == a[k] && b1[k] == b[k]);
        }
        lemma_args_text_pointwise(a1, sa, b1, sb);
    }
}


// ---------------------------------------------------------------------
// Copies of syntax trees

/// A copy of a path.
pub(crate) fn clone_path(p: &Path) -> (r: Path)
    ensures
        r.span == p.span,
        r.kind.segments@ == p.kind.segments@,
        crate::typeck::path_same(r, *p),
{
    let mut segments: Vec<String> = Vec::new();
    let mut i: usize = 0;
    while i < p.kind.segments.len()
        invariant
            0 <= i <= p.kind.segments@.len(),
            segments@ == p.kind.segments@.take(i as int),
        decreases p.kind.segments@.len() - i,
    {
        segments.push(p.kind.segments[i].clone());
        i = i + 1;
        proof {
            assert(segments@ =~= p.kind.segments@.take(i as int));
        }
    }
    proof {
        assert(p.kind.segments@.take(i as int) =~= p.kind.segments@);
    }
    let r = Node::new(p.span, PathKind { segments });
    proof {
        assert(r.kind.segment_views() =~= p.kind.segment_views());
    }
    r
}

/// A copy of a type.
pub(crate) fn clone_ty(t: &Ty) -> (r: Ty)
    ensures
        r.span == t.span,
        forall|s: Seq<char>| #[trigger] ty_text_with(r, s) == ty_text_with(*t, s),
        t.kind is Unit ==> r.kind is Unit,
        t.kind is Bool ==> r.kind is Bool,
        t.kind is Never ==> r.kind is Never,
        t.kind is Int ==> r.kind == t.kind,
        crate::typeck::ty_same(r, *t),
    decreases t,
{
    let r = match &t.kind {
        TyKind::Unit => Node::new(t.span, TyKind::Unit),
        TyKind::Bool => Node::new(t.span, TyKind::Bool),
        TyKind::Never => Node::new(t.span, TyKind::Never),
        TyKind::Int(i) => Node::new(t.span, TyKind::Int(*i)),
        TyKind::SelfTy => Node::new(t.span, TyKind::SelfTy),
        TyKind::Path { path, args } => {
            let p = clone_path(path);
            let a = clone_args(args);
            proof {
                assert(p.kind.segment_views() =~= path.kind.segment_views());
            }
            Node::new(t.span, TyKind::Path { path: p, args: a })
        },
        TyKind::Array { elem, len } => {
            let e = clone_ty(elem);
            let l = clone_const_expr(len);
            Node::new(t.span, TyKind::Array { elem: Box::new(e), len: l })
        },
        TyKind::Ref { mutability, ty } => {
            let inner = clone_ty(ty);
            Node::new(t.span, TyKind::Ref { mutability: *mutability, ty: Box::new(inner) })
        },
        TyKind::Fn { params, ret } => {
            let ps = clone_tys(params);
            let rt = clone_ty(ret);
            Node::new(t.span, TyKind::Fn { params: ps, ret: Box::new(rt) })
        },
    };
    proof {
        assert forall|s: Seq<char>| #[trigger] ty_text_with(r, s) == ty_text_with(*t, s) by {
            match (r.kind, t.kind) {
                (TyKind::Path { args: ra, .. }, TyKind::Path { args: ta, .. }) => {
                    assert(args_text_with(ra@, s) == args_text_with(ta@, s));
                },
                (TyKind::Array { elem: re, len: rl }, TyKind::Array { elem: te, len: tl }) => {
                    assert(ty_text_with(*re, s) == ty_text_with(*te, s));
                    assert(const_text_with(rl, s) == const_text_with(tl, s));
                },
                (TyKind::Ref { ty: ri, .. }, TyKind::Ref { ty: ti, .. }) => {
                    assert(ty_text_with(*ri, s) == ty_text_with(*ti, s));
                },
                (TyKind::Fn { params: rp, ret: rr }, TyKind::Fn { params: tp, ret: tr }) => {
                    assert(tys_text_with(rp@, s) == tys_text_with(tp@, s));
                    assert(ty_text_with(*rr, s) == ty_text_with(*tr, s));
                },
                _ => {},
            }
        }
    }
    r
}

/// Copies of a list of types.
pub(crate) fn clone_tys(ts: &Vec<Ty>) -> (r: Vec<Ty>)
    ensures
        r@.len() == ts@.len(),
        forall|s: Seq<char>| #[trigger] tys_text_with(r@, s) == tys_text_with(ts@, s),
        crate::typeck::tys_same(r@, ts@),
    decreases ts,
{
    let mut out: Vec<Ty> = Vec::new();
    let mut i: usize = 0;
    while i < ts.len()
        invariant
            0 <= i <= ts@.len(),
            out@.len() == i,
            forall|k: int, s: Seq<char>| 0 <= k < i ==> #[trigger] ty_text_with(out@[k], s) == ty_text_with(ts@[k], s),
            forall|k: int| 0 <= k < i ==> crate::typeck::ty_same(#[trigger] out@[k], ts@[k]),
        decreases ts@.len() - i,
    {
        out.push(clone_ty(&ts[i]));
        i = i + 1;
    }
    proof {
        crate::typeck::lemma_tys_same(out@, ts@);
        assert forall|s: Seq<char>| #[trigger] tys_text_with(out@, s) == tys_text_with(ts@, s) by {
            lemma_tys_text_pointwise(out@, s, ts@, s);
        }
    }
    out
}

/// A copy of a generic argument.
pub(crate) fn clone_generic_arg(a: &GenericArg) -> (r: GenericArg)
    ensures
        r.span == a.span,
        forall|s: Seq<char>| #[trigger] arg_text_with(r, s) == arg_text_with(*a, s),
        crate::typeck::arg_same(r, *a),
    decreases a,
{
    match &a.kind {
        GenericArgKind::Ty(t) => {
            let c = clone_ty(t);
            let r = Node::new(a.span, GenericArgKind::Ty(c));
            proof {
                assert forall|s: Seq<char>| #[trigger] arg_text_with(r, s) == arg_text_with(*a, s) by {
                    assert(arg_text_with(r, s) == ty_text_with(c, s));
                    assert(arg_text_with(*a, s) == ty_text_with(*t, s));
                    assert(ty_text_with(c, s) == ty_text_with(*t, s));
                }
            }
            r
        },
        GenericArgKind::Const(e) => {
            let c = clone_const_expr(e);
            let r = Node::new(a.span, GenericArgKind::Const(c));
            proof {
                assert forall|s: Seq<char>| #[trigger] arg_text_with(r, s) == arg_text_with(*a, s) by {
                    assert(arg_text_with(r, s) == const_text_with(c, s));
                    assert(arg_text_with(*a, s) == const_text_with(*e, s));
                    assert(const_text_with(c, s) == const_text_with(*e, s));
                }
            }
            r
        },
    }
}

/// Copies of a list of generic arguments.
pub(crate) fn clone_args(args: &Vec<GenericArg>) -> (r: Vec<GenericArg>)
    ensures
        r@.len() == args@.len(),
        forall|s: Seq<char>| #[trigger] args_text_with(r@, s) == args_text_with(args@, s),
        crate::typeck::args_same(r@, args@),
    decreases args,
{
    let mut out: Vec<GenericArg> = Vec::new();
    let mut i: usize = 0;
    while i < args.len()
        invariant
            0 <= i <= args@.len(),
            out@.len() == i,
            forall|k: int, s: Seq<char>| 0 <= k < i ==> #[trigger] arg_text_with(out@[k], s) == arg_text_with(args@[k], s),
            forall|k: int| 0 <= k < i ==> crate::typeck::arg_same(#[trigger] out@[k], args@[k]),
        decreases args@.len() - i,
    {
        out.push(clone_generic_arg(&args[i]));
        i = i + 1;
    }
    proof {
        crate::typeck::lemma_args_same(out@, args@);
        assert forall|s: Seq<char>| #[trigger] args_text_with(out@, s) == args_text_with(args@, s) by {
            lemma_args_text_pointwise(out@, s, args@, s);
        }
    }
    out
}

/// A copy of a constant expression.
pub(crate) fn clone_const_expr(e: &ConstExpr) -> (r: ConstExpr)
    ensures
        r.span == e.span,
        forall|s: Seq<char>| #[trigger] const_text_with(r, s) == const_text_with(*e, s),
        crate::typeck::const_same(r, *e),
    decreases e,
{
    let r = match &e.kind {
        ConstExprKind::IntLit(v) => Node::new(e.span, ConstExprKind::IntLit(v.copy())),
        ConstExprKind::Path(p) => {
            let c = clone_path(p);
            proof {
                assert(c.kind.segment_views() =~= p.kind.segment_views());
            }
            Node::new(e.span, ConstExprKind::Path(c))
        },
        ConstExprKind::Param(n) => Node::new(e.span, ConstExprKind::Param(n.clone())),
        ConstExprKind::AssocConst { ty, interface, name } => {
            let t = clone_ty(ty);
            let i = clone_path(interface);
            proof {
                assert(i.kind.segment_views() =~= interface.kind.segment_views());
            }
            Node::new(e.span, ConstExprKind::AssocConst { ty: Box::new(t), interface: i, name: name.clone() })
        },
        ConstExprKind::Unary { op, expr } => {
            let c = clone_const_expr(expr);
            Node::new(e.span, ConstExprKind::Unary { op: *op, expr: Box::new(c) })
        },
        ConstExprKind::Binary { op, lhs, rhs } => {
            let l = clone_const_expr(lhs);
            let r = clone_const_expr(rhs);
            Node::new(e.span, ConstExprKind::Binary { op: *op, lhs: Box::new(l), rhs: Box::new(r) })
        },
        ConstExprKind::Cast { expr, ty } => {
            let c = clone_const_expr(expr);
            Node::new(e.span, ConstExprKind::Cast { expr: Box::new(c), ty: *ty })
        },
    };
    proof {
        assert forall|s: Seq<char>| #[trigger] const_text_with(r, s) == const_text_with(*e, s) by {
            match (r.kind, e.kind) {
                (ConstExprKind::AssocConst { ty: rt, .. }, ConstExprKind::AssocConst { ty: et, .. }) => {
                    assert(ty_text_with(*rt, s) == ty_text_with(*et, s));
                },
                (ConstExprKind::Unary { expr: ri, .. }, ConstExprKind::Unary { expr: ei, .. }) => {
                    assert(const_text_with(*ri, s) == const_text_with(*ei, s));
                },
                (ConstExprKind::Binary { lhs: rl, rhs: rr, .. }, ConstExprKind::Binary { lhs: el, rhs: er, .. }) => {
                    assert(const_text_with(*rl, s) == const_text_with(*el, s));
                    assert(const_text_with(*rr, s) == const_text_with(*er, s));
                },
                (ConstExprKind::Cast { expr: ri, .. }, ConstExprKind::Cast { expr: ei, .. }) => {
                    assert(const_text_with(*ri, s) == const_text_with(*ei, s));
                },
                _ => {},
            }
        }
    }
    r
}

/// A copy of an interface reference.
pub(crate) fn clone_interface_ref(i: &InterfaceRef) -> (r: InterfaceRef)
    ensures
        r.span == i.span,
{
    Node::new(i.span, InterfaceRefKind { path: clone_path(&i.kind.path), args: clone_args(&i.kind.args) })
}

} // verus!
