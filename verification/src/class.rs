//! Class nodes, as the bundler's tree holds them, and the shape that tools of
//! the Babel family expect of them.
//!
//! A class node here holds the flags and kinds that the conversion reads, and
//! handles for its children (keys, expressions, types, blocks): whoever owns
//! the trees converts a child by its handle. The conversion decides which
//! field goes where, which ones are wrapped, and which nodes have no
//! counterpart.

use vstd::prelude::*;

verus! {

/// A range of source positions.
#[derive(Clone, Copy, PartialEq, Eq, Structural, Debug)]
pub struct Span {
    pub lo: u32,
    pub hi: u32,
}

/// Handle of a child node that is converted elsewhere.
#[derive(Clone, Copy, PartialEq, Eq, Structural, Debug)]
pub struct NodeRef(pub u32);

/// Who may use a member.
#[derive(Clone, Copy, PartialEq, Eq, Structural, Debug)]
pub enum Accessibility {
    Public,
    Protected,
    Private,
}

/// What a method is, in the words of the bundler's tree.
#[derive(Clone, Copy, PartialEq, Eq, Structural, Debug)]
pub enum MethodKind {
    Method,
    Getter,
    Setter,
}

/// What a method is, in the words of the other shape, where a constructor
/// is a method too.
#[derive(Clone, Copy, PartialEq, Eq, Structural, Debug)]
pub enum ClassMethodKind {
    Getter,
    Setter,
    Method,
    Constructor,
}

/// A decorator: where it stands and the expression it applies.
#[derive(Clone, Copy, PartialEq, Eq, Structural, Debug)]
pub struct Decorator {
    pub span: Span,
    pub expr: NodeRef,
}

/// A decorator in the other shape.
#[derive(Clone, Copy, PartialEq, Eq, Structural, Debug)]
pub struct BabelDecorator {
    pub base: Span,
    pub expression: NodeRef,
}

/// What a method has of a function.
#[derive(Clone, PartialEq, Eq, Debug)]
pub struct Function {
    pub params: Vec<NodeRef>,
    pub decorators: Vec<Decorator>,
    pub span: Span,
    pub body: Option<NodeRef>,
    pub is_generator: bool,
    pub is_async: bool,
    pub type_params: Option<NodeRef>,
    pub return_type: Option<NodeRef>,
}

/// A method with a public key.
#[derive(Clone, PartialEq, Eq, Debug)]
pub struct ClassMethod {
    pub span: Span,
    pub key: NodeRef,
    pub function: Function,
    pub kind: MethodKind,
    pub is_static: bool,
    pub accessibility: Option<Accessibility>,
    pub is_abstract: bool,
    pub is_optional: bool,
}

/// A method with a private name.
#[derive(Clone, PartialEq, Eq, Debug)]
pub struct PrivateMethod {
    pub span: Span,
    pub key: NodeRef,
    pub function: Function,
    pub kind: MethodKind,
    pub is_static: bool,
    pub accessibility: Option<Accessibility>,
    pub is_abstract: bool,
    pub is_optional: bool,
}

/// The constructor of a class.
#[derive(Clone, PartialEq, Eq, Debug)]
pub struct Constructor {
    pub span: Span,
    pub key: NodeRef,
    pub params: Vec<NodeRef>,
    pub body: Option<NodeRef>,
    pub accessibility: Option<Accessibility>,
    pub is_optional: bool,
}

/// A property with a public key.
#[derive(Clone, PartialEq, Eq, Debug)]
pub struct ClassProp {
    pub span: Span,
    pub key: NodeRef,
    pub value: Option<NodeRef>,
    pub type_ann: Option<NodeRef>,
    pub is_static: bool,
    pub decorators: Vec<Decorator>,
    pub computed: bool,
    pub accessibility: Option<Accessibility>,
    pub is_abstract: bool,
    pub is_optional: bool,
    pub readonly: bool,
    pub declare: bool,
    pub definite: bool,
}

/// A property with a private name.
#[derive(Clone, PartialEq, Eq, Debug)]
pub struct PrivateProp {
    pub span: Span,
    pub key: NodeRef,
    pub value: Option<NodeRef>,
    pub type_ann: Option<NodeRef>,
    pub is_static: bool,
    pub decorators: Vec<Decorator>,
}

/// What the body of a class holds.
#[derive(Clone, PartialEq, Eq, Debug)]
pub enum ClassMember {
    Constructor(Constructor),
    Method(ClassMethod),
    PrivateMethod(PrivateMethod),
    ClassProp(ClassProp),
    PrivateProp(PrivateProp),
    TsIndexSignature(NodeRef),
    Empty(Span),
}

/// A class.
#[derive(Clone, PartialEq, Eq, Debug)]
pub struct Class {
    pub span: Span,
    pub decorators: Vec<Decorator>,
    pub body: Vec<ClassMember>,
    pub super_class: Option<NodeRef>,
    pub type_params: Option<NodeRef>,
    pub super_type_params: Option<NodeRef>,
    pub implements: Vec<NodeRef>,
}

/// A method or constructor in the other shape.
#[derive(Clone, PartialEq, Eq, Debug)]
pub struct BabelClassMethod {
    pub base: Span,
    pub kind: Option<ClassMethodKind>,
    pub key: NodeRef,
    pub params: Vec<NodeRef>,
    pub body: NodeRef,
    pub computed: Option<bool>,
    pub is_static: Option<bool>,
    pub generator: Option<bool>,
    pub is_async: Option<bool>,
    pub is_abstract: Option<bool>,
    pub access: Option<Accessibility>,
    pub accessibility: Option<Accessibility>,
    pub decorators: Option<Vec<BabelDecorator>>,
    pub optional: Option<bool>,
    pub return_type: Option<NodeRef>,
    pub type_parameters: Option<NodeRef>,
}

/// A method with a private name in the other shape.
#[derive(Clone, PartialEq, Eq, Debug)]
pub struct ClassPrivateMethod {
    pub base: Span,
    pub kind: Option<ClassMethodKind>,
    pub key: NodeRef,
    pub params: Vec<NodeRef>,
    pub body: NodeRef,
    pub is_static: Option<bool>,
    pub is_abstract: Option<bool>,
    pub access: Option<Accessibility>,
    pub accessibility: Option<Accessibility>,
    pub is_async: Option<bool>,
    pub computed: Option<bool>,
    pub decorators: Option<Vec<BabelDecorator>>,
    pub generator: Option<bool>,
    pub optional: Option<bool>,
    pub return_type: Option<NodeRef>,
    pub type_parameters: Option<NodeRef>,
}

/// A property in the other shape.
#[derive(Clone, PartialEq, Eq, Debug)]
pub struct ClassProperty {
    pub base: Span,
    pub key: NodeRef,
    pub value: Option<NodeRef>,
    pub type_annotation: Option<NodeRef>,
    pub decorators: Option<Vec<BabelDecorator>>,
    pub computed: Option<bool>,
    pub is_static: Option<bool>,
    pub is_abstract: Option<bool>,
    pub accessibility: Option<Accessibility>,
    pub declare: Option<bool>,
    pub definite: Option<bool>,
    pub optional: Option<bool>,
    pub readonly: Option<bool>,
}

/// `serde_json::Value`: a JSON value, which the library makes and hands on
/// without looking inside.
#[verifier::external_type_specification]
#[verifier::external_body]
pub struct ExJsonValue(serde_json::Value);

/// What a JSON value holds as a boolean: `Some(b)` for the value
/// `Value::Bool(b)`, `None` for every other value.
pub uninterp spec fn json_bool(v: serde_json::Value) -> Option<bool>;

/// Makes `serde_json::Value::Bool(b)`. Believed: the value made holds the
/// boolean `b`.
#[verifier::external_body]
fn bool_value(b: bool) -> (v: serde_json::Value)
    ensures
        json_bool(v) == Some(b),
{
    serde_json::Value::Bool(b)
}

/// Calls `serde_json::Value::as_bool`. Believed: it returns the boolean that
/// the value holds, and `None` where it holds none.
#[verifier::external_body]
fn value_as_bool(v: &serde_json::Value) -> (b: Option<bool>)
    ensures
        b == json_bool(*v),
{
    v.as_bool()
}

/// A property with a private name in the other shape. Whether it is static
/// is held as a JSON value.
#[derive(PartialEq, Eq, Debug)]
pub struct ClassPrivateProperty {
    pub base: Span,
    pub key: NodeRef,
    pub value: Option<NodeRef>,
    pub decorators: Option<Vec<BabelDecorator>>,
    pub static_any: serde_json::Value,
    pub type_annotation: Option<NodeRef>,
}

impl ClassPrivateProperty {
    /// Whether the property is static, where `static_any` says so.
    pub fn is_static(&self) -> (b: Option<bool>)
        ensures
            b == json_bool(self.static_any),
    {
        value_as_bool(&self.static_any)
    }
}

/// What the body of a class holds in the other shape.
#[derive(PartialEq, Eq, Debug)]
pub enum ClassBodyEl {
    Method(BabelClassMethod),
    PrivateMethod(ClassPrivateMethod),
    Prop(ClassProperty),
    PrivateProp(ClassPrivateProperty),
    TSIndex(NodeRef),
}

/// The body of a class in the other shape.
#[derive(PartialEq, Eq, Debug)]
pub struct ClassBody {
    pub base: Span,
    pub body: Vec<ClassBodyEl>,
}

/// A class in the other shape.
#[derive(PartialEq, Eq, Debug)]
pub struct ClassExpression {
    pub base: Span,
    pub id: Option<NodeRef>,
    pub super_class: Option<NodeRef>,
    pub body: ClassBody,
    pub decorators: Option<Vec<BabelDecorator>>,
    pub implements: Option<Vec<NodeRef>>,
    pub mixins: Option<NodeRef>,
    pub super_type_parameters: Option<NodeRef>,
    pub type_parameters: Option<NodeRef>,
}

impl MethodKind {
    /// The kind under its other name.
    pub open spec fn babel(self) -> ClassMethodKind {
        match self {
            MethodKind::Method => ClassMethodKind::Method,
            MethodKind::Getter => ClassMethodKind::Getter,
            MethodKind::Setter => ClassMethodKind::Setter,
        }
    }

    /// The kind in the words of the other shape.
    pub fn babelify(self) -> (out: ClassMethodKind)
        ensures
            out == self.babel(),
    {
        match self {
            MethodKind::Method => ClassMethodKind::Method,
            MethodKind::Getter => ClassMethodKind::Getter,
            MethodKind::Setter => ClassMethodKind::Setter,
        }
    }
}

impl Decorator {
    /// The decorator in the other shape: the same span, the same expression.
    pub open spec fn babel(self) -> BabelDecorator {
        BabelDecorator { base: self.span, expression: self.expr }
    }

    /// The decorator in the other shape.
    pub fn babelify(self) -> (out: BabelDecorator)
        ensures
            out == self.babel(),
    {
        BabelDecorator { base: self.span, expression: self.expr }
    }
}

/// Each decorator converted, in order.
pub open spec fn babel_decorators(list: Seq<Decorator>) -> Seq<BabelDecorator> {
    Seq::new(list.len(), |i: int| list[i].babel())
}

fn babelify_decorators(list: &Vec<Decorator>) -> (out: Vec<BabelDecorator>)
    ensures
        out@ == babel_decorators(list@),
{
    let mut out: Vec<BabelDecorator> = Vec::new();
    let mut i: usize = 0;
    while i < list.len()
        invariant
            i <= list.len(),
            out@ == babel_decorators(list@.take(i as int)),
        decreases list.len() - i,
    {
        out.push(list[i].babelify());
        assert(out@ =~= babel_decorators(list@.take(i + 1)));
        i += 1;
    }
    assert(list@.take(i as int) =~= list@);
    out
}

fn copy_refs(list: &Vec<NodeRef>) -> (out: Vec<NodeRef>)
    ensures
        out@ == list@,
{
    let mut out: Vec<NodeRef> = Vec::new();
    let mut i: usize = 0;
    while i < list.len()
        invariant
            i <= list.len(),
            out@ == list@.take(i as int),
        decreases list.len() - i,
    {
        out.push(list[i]);
        assert(out@ =~= list@.take(i + 1));
        i += 1;
    }
    assert(list@.take(i as int) =~= list@);
    out
}

impl ClassMethod {
    /// Whether `out` is this method in the other shape: every flag wrapped,
    /// the accessibility in both of its places, `computed` left unset, and the
    /// function's parameters, body, decorators and types taken over.
    pub open spec fn converts_to(self, out: BabelClassMethod) -> bool {
        &&& self.function.body.is_some()
        &&& out.base == self.span
        &&& out.key == self.key
        &&& out.kind == Some(self.kind.babel())
        &&& out.is_static == Some(self.is_static)
        &&& out.access == self.accessibility
        &&& out.accessibility == self.accessibility
        &&& out.is_abstract == Some(self.is_abstract)
        &&& out.optional == Some(self.is_optional)
        &&& out.params@ == self.function.params@
        &&& out.body == self.function.body.unwrap()
        &&& out.generator == Some(self.function.is_generator)
        &&& out.is_async == Some(self.function.is_async)
        &&& out.decorators.is_some()
        &&& out.decorators.unwrap()@ == babel_decorators(self.function.decorators@)
        &&& out.type_parameters == self.function.type_params
        &&& out.return_type == self.function.return_type
        &&& out.computed.is_none()
    }

    fn convert(&self) -> (out: BabelClassMethod)
        requires
            self.function.body.is_some(),
        ensures
            self.converts_to(out),
    {
        BabelClassMethod {
            base: self.span,
            key: self.key,
            kind: Some(self.kind.babelify()),
            is_static: Some(self.is_static),
            access: self.accessibility,
            accessibility: self.accessibility,
            is_abstract: Some(self.is_abstract),
            optional: Some(self.is_optional),
            params: copy_refs(&self.function.params),
            body: self.function.body.unwrap(),
            generator: Some(self.function.is_generator),
            is_async: Some(self.function.is_async),
            decorators: Some(babelify_decorators(&self.function.decorators)),
            type_parameters: self.function.type_params,
            return_type: self.function.return_type,
            computed: None,
        }
    }

    /// The method in the other shape. A method without a body has none.
    pub fn babelify(self) -> (out: BabelClassMethod)
        requires
            self.function.body.is_some(),
        ensures
            self.converts_to(out),
    {
        self.convert()
    }
}

impl PrivateMethod {
    /// As for a method with a public key.
    pub open spec fn converts_to(self, out: ClassPrivateMethod) -> bool {
        &&& self.function.body.is_some()
        &&& out.base == self.span
        &&& out.key == self.key
        &&& out.kind == Some(self.kind.babel())
        &&& out.is_static == Some(self.is_static)
        &&& out.access == self.accessibility
        &&& out.accessibility == self.accessibility
        &&& out.is_abstract == Some(self.is_abstract)
        &&& out.optional == Some(self.is_optional)
        &&& out.params@ == self.function.params@
        &&& out.body == self.function.body.unwrap()
        &&& out.generator == Some(self.function.is_generator)
        &&& out.is_async == Some(self.function.is_async)
        &&& out.decorators.is_some()
        &&& out.decorators.unwrap()@ == babel_decorators(self.function.decorators@)
        &&& out.type_parameters == self.function.type_params
        &&& out.return_type == self.function.return_type
        &&& out.computed.is_none()
    }

    fn convert(&self) -> (out: ClassPrivateMethod)
        requires
            self.function.body.is_some(),
        ensures
            self.converts_to(out),
    {
        ClassPrivateMethod {
            base: self.span,
            key: self.key,
            kind: Some(self.kind.babelify()),
            is_static: Some(self.is_static),
            access: self.accessibility,
            accessibility: self.accessibility,
            is_abstract: Some(self.is_abstract),
            optional: Some(self.is_optional),
            params: copy_refs(&self.function.params),
            body: self.function.body.unwrap(),
            generator: Some(self.function.is_generator),
            is_async: Some(self.function.is_async),
            decorators: Some(babelify_decorators(&self.function.decorators)),
            type_parameters: self.function.type_params,
            return_type: self.function.return_type,
            computed: None,
        }
    }

    /// The method in the other shape. A method without a body has none.
    pub fn babelify(self) -> (out: ClassPrivateMethod)
        requires
            self.function.body.is_some(),
        ensures
            self.converts_to(out),
    {
        self.convert()
    }
}

impl Constructor {
    /// Whether `out` is this constructor as a method: its kind says so, and
    /// what a constructor cannot be is left unset.
    pub open spec fn converts_to(self, out: BabelClassMethod) -> bool {
        &&& self.body.is_some()
        &&& out.base == self.span
        &&& out.kind == Some(ClassMethodKind::Constructor)
        &&& out.key == self.key
        &&& out.params@ == self.params@
        &&& out.body == self.body.unwrap()
        &&& out.access == self.accessibility
        &&& out.accessibility == self.accessibility
        &&& out.optional == Some(self.is_optional)
        &&& out.computed.is_none()
        &&& out.is_static.is_none()
        &&& out.generator.is_none()
        &&& out.is_async.is_none()
        &&& out.is_abstract.is_none()
        &&& out.decorators.is_none()
        &&& out.return_type.is_none()
        &&& out.type_parameters.is_none()
    }

    fn convert(&self) -> (out: BabelClassMethod)
        requires
            self.body.is_some(),
        ensures
            self.converts_to(out),
    {
        BabelClassMethod {
            base: self.span,
            kind: Some(ClassMethodKind::Constructor),
            key: self.key,
            params: copy_refs(&self.params),
            body: self.body.unwrap(),
            access: self.accessibility,
            accessibility: self.accessibility,
            optional: Some(self.is_optional),
            computed: None,
            is_static: None,
            generator: None,
            is_async: None,
            is_abstract: None,
            decorators: None,
            return_type: None,
            type_parameters: None,
        }
    }

    /// The constructor as a method. One without a body has no such form.
    pub fn babelify(self) -> (out: BabelClassMethod)
        requires
            self.body.is_some(),
        ensures
            self.converts_to(out),
    {
        self.convert()
    }
}

impl ClassProp {
    /// Whether `out` is this property in the other shape: every flag
    /// wrapped, and key, value, type and decorators taken over.
    pub open spec fn converts_to(self, out: ClassProperty) -> bool {
        &&& out.base == self.span
        &&& out.key == self.key
        &&& out.value == self.value
        &&& out.type_annotation == self.type_ann
        &&& out.is_static == Some(self.is_static)
        &&& out.decorators.is_some()
        &&& out.decorators.unwrap()@ == babel_decorators(self.decorators@)
        &&& out.computed == Some(self.computed)
        &&& out.accessibility == self.accessibility
        &&& out.is_abstract == Some(self.is_abstract)
        &&& out.optional == Some(self.is_optional)
        &&& out.readonly == Some(self.readonly)
        &&& out.declare == Some(self.declare)
        &&& out.definite == Some(self.definite)
    }

    fn convert(&self) -> (out: ClassProperty)
        ensures
            self.converts_to(out),
    {
        ClassProperty {
            base: self.span,
            key: self.key,
            value: self.value,
            type_annotation: self.type_ann,
            is_static: Some(self.is_static),
            decorators: Some(babelify_decorators(&self.decorators)),
            computed: Some(self.computed),
            accessibility: self.accessibility,
            is_abstract: Some(self.is_abstract),
            optional: Some(self.is_optional),
            readonly: Some(self.readonly),
            declare: Some(self.declare),
            definite: Some(self.definite),
        }
    }

    /// The property in the other shape.
    pub fn babelify(self) -> (out: ClassProperty)
        ensures
            self.converts_to(out),
    {
        self.convert()
    }
}

impl PrivateProp {
    /// Whether `out` is this property in the other shape; its `static` is held
    /// as a JSON boolean.
    pub open spec fn converts_to(self, out: ClassPrivateProperty) -> bool {
        &&& out.base == self.span
        &&& out.key == self.key
        &&& out.value == self.value
        &&& out.type_annotation == self.type_ann
        &&& json_bool(out.static_any) == Some(self.is_static)
        &&& out.decorators.is_some()
        &&& out.decorators.unwrap()@ == babel_decorators(self.decorators@)
    }

    fn convert(&self) -> (out: ClassPrivateProperty)
        ensures
            self.converts_to(out),
    {
        ClassPrivateProperty {
            base: self.span,
            key: self.key,
            value: self.value,
            type_annotation: self.type_ann,
            static_any: bool_value(self.is_static),
            decorators: Some(babelify_decorators(&self.decorators)),
        }
    }

    /// The property in the other shape.
    pub fn babelify(self) -> (out: ClassPrivateProperty)
        ensures
            self.converts_to(out),
    {
        self.convert()
    }
}

impl ClassMember {
    /// Whether the member has a counterpart: an empty member has none, nor
    /// has a method or constructor without a body.
    pub open spec fn convertible(self) -> bool {
        match self {
            ClassMember::Constructor(c) => c.body.is_some(),
            ClassMember::Method(m) => m.function.body.is_some(),
            ClassMember::PrivateMethod(m) => m.function.body.is_some(),
            ClassMember::ClassProp(_) => true,
            ClassMember::PrivateProp(_) => true,
            ClassMember::TsIndexSignature(_) => true,
            ClassMember::Empty(_) => false,
        }
    }

    /// Whether `out` is this member's counterpart: constructors and methods
    /// both become methods, each other kind keeps to its own.
    pub open spec fn converts_to(self, out: ClassBodyEl) -> bool {
        match self {
            ClassMember::Constructor(c) => out matches ClassBodyEl::Method(m) && c.converts_to(m),
            ClassMember::Method(s) => out matches ClassBodyEl::Method(m) && s.converts_to(m),
            ClassMember::PrivateMethod(s) => out matches ClassBodyEl::PrivateMethod(m)
                && s.converts_to(m),
            ClassMember::ClassProp(s) => out matches ClassBodyEl::Prop(p) && s.converts_to(p),
            ClassMember::PrivateProp(s) => out matches ClassBodyEl::PrivateProp(p)
                && s.converts_to(p),
            ClassMember::TsIndexSignature(s) => out == ClassBodyEl::TSIndex(s),
            ClassMember::Empty(_) => false,
        }
    }

    /// Tells whether `babelify` accepts the member.
    pub fn can_babelify(&self) -> (b: bool)
        ensures
            b == self.convertible(),
    {
        match self {
            ClassMember::Constructor(c) => c.body.is_some(),
            ClassMember::Method(m) => m.function.body.is_some(),
            ClassMember::PrivateMethod(m) => m.function.body.is_some(),
            ClassMember::ClassProp(_) => true,
            ClassMember::PrivateProp(_) => true,
            ClassMember::TsIndexSignature(_) => true,
            ClassMember::Empty(_) => false,
        }
    }

    fn convert(&self) -> (out: ClassBodyEl)
        requires
            self.convertible(),
        ensures
            self.converts_to(out),
    {
        match self {
            ClassMember::Constructor(c) => ClassBodyEl::Method(c.convert()),
            ClassMember::Method(m) => ClassBodyEl::Method(m.convert()),
            ClassMember::PrivateMethod(m) => ClassBodyEl::PrivateMethod(m.convert()),
            ClassMember::ClassProp(p) => ClassBodyEl::Prop(p.convert()),
            ClassMember::PrivateProp(p) => ClassBodyEl::PrivateProp(p.convert()),
            ClassMember::TsIndexSignature(s) => ClassBodyEl::TSIndex(*s),
            ClassMember::Empty(_) => {
                proof {
                    assert(false);
                }
                ClassBodyEl::TSIndex(NodeRef(0))
            },
        }
    }

    /// The member's counterpart. An empty member has none, nor has a method
    /// or constructor without a body.
    pub fn babelify(self) -> (out: ClassBodyEl)
        requires
            self.convertible(),
        ensures
            self.converts_to(out),
    {
        self.convert()
    }
}

impl Class {
    /// Whether every member of the body has a counterpart.
    pub open spec fn convertible(self) -> bool {
        forall|i: int| 0 <= i < self.body@.len() ==> (#[trigger] self.body@[i]).convertible()
    }

    /// Whether `out` is this class's body over the span `body_span`: the
    /// members' counterparts, one for one and in order.
    pub open spec fn body_converts_to(self, body_span: Span, out: ClassBody) -> bool {
        &&& out.base == body_span
        &&& out.body@.len() == self.body@.len()
        &&& forall|i: int|
            0 <= i < self.body@.len() ==> (#[trigger] self.body@[i]).converts_to(out.body@[i])
    }

    /// Whether `out` is this class as an expression: it has no name of its
    /// own and no mixins, its lists are present even when empty.
    pub open spec fn converts_to(self, body_span: Span, out: ClassExpression) -> bool {
        &&& out.base == self.span
        &&& out.decorators.is_some()
        &&& out.decorators.unwrap()@ == babel_decorators(self.decorators@)
        &&& self.body_converts_to(body_span, out.body)
        &&& out.super_class == self.super_class
        &&& out.type_parameters == self.type_params
        &&& out.super_type_parameters == self.super_type_params
        &&& out.implements.is_some()
        &&& out.implements.unwrap()@ == self.implements@
        &&& out.id.is_none()
        &&& out.mixins.is_none()
    }

    /// Tells whether `babelify` accepts the class.
    pub fn can_babelify(&self) -> (b: bool)
        ensures
            b == self.convertible(),
    {
        let mut i: usize = 0;
        while i < self.body.len()
            invariant
                i <= self.body.len(),
                forall|j: int| 0 <= j < i ==> (#[trigger] self.body@[j]).convertible(),
            decreases self.body.len() - i,
        {
            if !self.body[i].can_babelify() {
                return false;
            }
            i += 1;
        }
        true
    }

    /// The class as an expression, its body spanning `body_span`.
    pub fn babelify(self, body_span: Span) -> (out: ClassExpression)
        requires
            self.convertible(),
        ensures
            self.converts_to(body_span, out),
    {
        ClassExpression {
            base: self.span,
            decorators: Some(babelify_decorators(&self.decorators)),
            body: extract_class_body(&self, body_span),
            super_class: self.super_class,
            type_parameters: self.type_params,
            super_type_parameters: self.super_type_params,
            implements: Some(copy_refs(&self.implements)),
            id: None,
            mixins: None,
        }
    }
}

/// The body of `class`, over the span `body_span`.
pub fn extract_class_body(class: &Class, body_span: Span) -> (out: ClassBody)
    requires
        class.convertible(),
    ensures
        class.body_converts_to(body_span, out),
{
    let mut body: Vec<ClassBodyEl> = Vec::new();
    let mut i: usize = 0;
    while i < class.body.len()
        invariant
            i <= class.body.len(),
            class.convertible(),
            body@.len() == i,
            forall|j: int| 0 <= j < i ==> (#[trigger] class.body@[j]).converts_to(body@[j]),
        decreases class.body.len() - i,
    {
        let el = class.body[i].convert();
        body.push(el);
        i += 1;
    }
    ClassBody { base: body_span, body }
}

} // verus!
