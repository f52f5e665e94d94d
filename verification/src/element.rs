//! Elements, attributes and their mathematical values.
use vstd::prelude::*;

verus! {

/// The kind of an element.
#[derive(Clone, Copy, Debug, PartialEq, Eq, Structural)]
pub enum ElementKind {
    Svg,
    Defs,
    LinearGradient,
    RadialGradient,
    Stop,
    Filter,
    FeGaussianBlur,
    Group,
    Use,
    Rect,
    Path,
    /// Any other node, told apart by a caller-chosen code.
    Other(u32),
}

/// The kind of an attribute.
#[derive(Clone, Copy, Debug, PartialEq, Eq, Structural)]
pub enum AttrKind {
    /// The reference through which a definition takes its content from
    /// another one.
    Href,
    Fill,
    Stroke,
    Offset,
    StopColor,
    StopOpacity,
    X1,
    Y1,
    X2,
    Y2,
    Cx,
    Cy,
    R,
    GradientUnits,
    GradientTransform,
    SpreadMethod,
    StdDeviation,
    /// Any other attribute, told apart by a caller-chosen code.
    Other(u32),
}

/// One attribute of an element.  When `is_link` is set, `value` is the
/// identifier of the element the attribute refers to.
#[derive(Clone, Debug, PartialEq, Eq)]
pub struct Attribute {
    pub kind: AttrKind,
    pub is_link: bool,
    pub value: String,
}

/// One element of a document.  `depth` is the number of its ancestors;
/// an empty `id` means the element has no identifier.
#[derive(Clone, Debug, PartialEq, Eq)]
pub struct Element {
    pub depth: usize,
    pub kind: ElementKind,
    pub id: String,
    pub attrs: Vec<Attribute>,
}

/// Mathematical value of an [`Attribute`].
pub struct AttributeView {
    pub kind: AttrKind,
    pub is_link: bool,
    pub value: Seq<char>,
}

/// Mathematical value of an [`Element`].
pub struct ElementView {
    pub depth: nat,
    pub kind: ElementKind,
    pub id: Seq<char>,
    pub attrs: Seq<AttributeView>,
}

impl View for Attribute {
    type V = AttributeView;

    open spec fn view(&self) -> AttributeView {
        AttributeView { kind: self.kind, is_link: self.is_link, value: self.value@ }
    }
}

/// Mathematical value of a list of attributes.
pub open spec fn attrs_view(attrs: Seq<Attribute>) -> Seq<AttributeView> {
    attrs.map_values(|a: Attribute| a@)
}

impl View for Element {
    type V = ElementView;

    open spec fn view(&self) -> ElementView {
        ElementView {
            depth: self.depth as nat,
            kind: self.kind,
            id: self.id@,
            attrs: attrs_view(self.attrs@),
        }
    }
}

/// Mathematical value of a list of elements.
pub open spec fn elements_view(elems: Seq<Element>) -> Seq<ElementView> {
    elems.map_values(|e: Element| e@)
}

} // verus!
