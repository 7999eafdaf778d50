//! The decoded tree: typed attribute values, named elements and the map that
//! owns the root, each with a spec view built from `Seq`s of plain values.
use vstd::prelude::*;

verus! {

/// One typed attribute value. Real numbers are kept as their IEEE-754 bit
/// patterns, exactly as they stood in the buffer.
#[derive(Debug, Clone)]
pub enum Attribute {
    Bool(bool),
    Byte(u8),
    Short(i16),
    Int(i32),
    /// Bits of an `f32`.
    Float(u32),
    String(String),
    Long(i64),
    /// Bits of an `f64`.
    Double(u64),
}

/// The spec view of an attribute value.
pub ghost enum AttrView {
    Bool(bool),
    Byte(u8),
    Short(i16),
    Int(i32),
    Float(u32),
    String(Seq<char>),
    Long(i64),
    Double(u64),
}

/// The spec view of an element: its name, its (name, value) pairs in stream
/// order and its children in stream order.
pub ghost struct ElementView {
    pub name: Seq<char>,
    pub attributes: Seq<(Seq<char>, AttrView)>,
    pub children: Seq<ElementView>,
}

/// The spec view of a decoded file.
pub ghost struct MapView {
    pub package_name: Seq<char>,
    pub root: ElementView,
}

impl View for Attribute {
    type V = AttrView;

    open spec fn view(&self) -> AttrView {
        match self {
            Attribute::Bool(x) => AttrView::Bool(*x),
            Attribute::Byte(x) => AttrView::Byte(*x),
            Attribute::Short(x) => AttrView::Short(*x),
            Attribute::Int(x) => AttrView::Int(*x),
            Attribute::Float(x) => AttrView::Float(*x),
            Attribute::String(s) => AttrView::String(s@),
            Attribute::Long(x) => AttrView::Long(*x),
            Attribute::Double(x) => AttrView::Double(*x),
        }
    }
}

impl AttrView {
    /// The value widened to `i64`, for the integer variants.
    pub open spec fn integer(self) -> Option<i64> {
        match self {
            AttrView::Byte(x) => Some(x as i64),
            AttrView::Short(x) => Some(x as i64),
            AttrView::Int(x) => Some(x as i64),
            AttrView::Long(x) => Some(x),
            _ => None,
        }
    }
}

impl Attribute {
    /// The value widened to `i64`, for the integer variants.
    pub fn as_integer(&self) -> (r: Option<i64>)
        ensures
            r == self@.integer(),
    {
        match self {
            Attribute::Byte(x) => Some(*x as i64),
            Attribute::Short(x) => Some(*x as i64),
            Attribute::Int(x) => Some(*x as i64),
            Attribute::Long(x) => Some(*x),
            _ => None,
        }
    }

    /// The value of a `Bool` attribute.
    pub fn as_bool(&self) -> (r: Option<bool>)
        ensures
            r == (match self@ {
                AttrView::Bool(x) => Some(x),
                _ => None,
            }),
    {
        match self {
            Attribute::Bool(x) => Some(*x),
            _ => None,
        }
    }

    /// The text of a `String` attribute.
    pub fn as_string(&self) -> (r: Option<&String>)
        ensures
            match self@ {
                AttrView::String(s) => r is Some && r.unwrap()@ == s,
                _ => r is None,
            },
    {
        match self {
            Attribute::String(s) => Some(s),
            _ => None,
        }
    }
}

/// A named node with ordered attributes and ordered children.
#[derive(Debug)]
pub struct Element {
    pub name: String,
    pub attributes: Vec<(String, Attribute)>,
    pub children: Vec<Element>,
}

impl View for Element {
    type V = ElementView;

    open spec fn view(&self) -> ElementView
        decreases self,
    {
        ElementView {
            name: self.name@,
            attributes: Seq::new(
                self.attributes@.len(),
                |i: int| (self.attributes@[i].0@, self.attributes@[i].1@),
            ),
            children: Seq::new(
                self.children@.len(),
                |i: int|
                    if 0 <= i < self.children.len() {
                        self.children[i].view()
                    } else {
                        ElementView { name: Seq::empty(), attributes: Seq::empty(), children: Seq::empty() }
                    },
            ),
        }
    }
}

/// The value of the first pair in `attrs` whose name is `name`.
pub open spec fn first_attribute(attrs: Seq<(Seq<char>, AttrView)>, name: Seq<char>) -> Option<
    AttrView,
>
    decreases attrs.len(),
{
    if attrs.len() == 0 {
        None
    } else if attrs[0].0 == name {
        Some(attrs[0].1)
    } else {
        first_attribute(attrs.drop_first(), name)
    }
}

/// The first element in `children` whose name is `name`.
pub open spec fn first_child(children: Seq<ElementView>, name: Seq<char>) -> Option<ElementView>
    decreases children.len(),
{
    if children.len() == 0 {
        None
    } else if children[0].name == name {
        Some(children[0])
    } else {
        first_child(children.drop_first(), name)
    }
}

/// Relies on `<str as PartialEq>::eq`: two strings are equal exactly when they
/// hold the same characters.
#[verifier::external_body]
pub(crate) fn same_text(a: &str, b: &str) -> (r: bool)
    ensures
        r == (a@ == b@),
{
    a == b
}

impl Element {
    /// The value of the first attribute named `name`.
    pub fn get_attribute(&self, name: &str) -> (r: Option<&Attribute>)
        ensures
            match first_attribute(self@.attributes, name@) {
                Some(v) => r is Some && r.unwrap()@ == v,
                None => r is None,
            },
    {
        let ghost all = self@.attributes;
        let mut i: usize = 0;
        assert(all.subrange(0, all.len() as int) =~= all);
        while i < self.attributes.len()
            invariant
                i <= self.attributes.len(),
                all == self@.attributes,
                first_attribute(all, name@) == first_attribute(
                    all.subrange(i as int, all.len() as int),
                    name@,
                ),
            decreases self.attributes.len() - i,
        {
            let ghost rest = all.subrange(i as int, all.len() as int);
            assert(rest.drop_first() =~= all.subrange(i + 1, all.len() as int));
            assert(rest[0] == (self.attributes@[i as int].0@, self.attributes@[i as int].1@));
            if same_text(self.attributes[i].0.as_str(), name) {
                return Some(&self.attributes[i].1);
            }
            i = i + 1;
        }
        None
    }

    /// The first child named `name`.
    pub fn get_child(&self, name: &str) -> (r: Option<&Element>)
        ensures
            match first_child(self@.children, name@) {
                Some(v) => r is Some && r.unwrap()@ == v,
                None => r is None,
            },
    {
        let ghost all = self@.children;
        let mut i: usize = 0;
        assert(all.subrange(0, all.len() as int) =~= all);
        while i < self.children.len()
            invariant
                i <= self.children.len(),
                all == self@.children,
                first_child(all, name@) == first_child(all.subrange(i as int, all.len() as int), name@),
            decreases self.children.len() - i,
        {
            let ghost rest = all.subrange(i as int, all.len() as int);
            assert(rest.drop_first() =~= all.subrange(i + 1, all.len() as int));
            assert(rest[0] == self.children@[i as int]@);
            if same_text(self.children[i].name.as_str(), name) {
                return Some(&self.children[i]);
            }
            i = i + 1;
        }
        None
    }
}

/// A decoded file: the package name and the root element.
#[derive(Debug)]
pub struct LevelMap {
    pub package_name: String,
    pub root: Element,
}

impl View for LevelMap {
    type V = MapView;

    open spec fn view(&self) -> MapView {
        MapView { package_name: self.package_name@, root: self.root@ }
    }
}

} // verus!
