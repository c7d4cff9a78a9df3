//! Read-only view of an HTML element for filter predicates.

use vstd::prelude::*;

verus! {

/// ASCII lowercase of one character.
pub open spec fn lower_char(c: char) -> char {
    if 'A' <= c && c <= 'Z' {
        ((c as u32) + 32) as char
    } else {
        c
    }
}

/// ASCII lowercase of a string.
pub open spec fn lower(s: Seq<char>) -> Seq<char> {
    s.map_values(|c: char| lower_char(c))
}

/// Characters that cannot occur in an attribute name.
pub open spec fn forbidden_in_name(c: char) -> bool {
    c == ' ' || c == '\n' || c == '\r' || c == '\t' || c == '\x0C' || c == '/' || c == '>' || c
        == '='
}

/// Whether `name` can name an attribute: non-empty, without whitespace, `/`, `>` or `=`.
pub open spec fn valid_attribute_name(name: Seq<char>) -> bool {
    name.len() > 0 && forall|i: int| 0 <= i < name.len() ==> !forbidden_in_name(#[trigger] name[i])
}

/// One attribute exposed to filter predicates.
#[derive(Debug, PartialEq, Eq)]
pub struct AttributeView {
    name: String,
    name_preserve_case: String,
    value: String,
}

impl AttributeView {
    pub closed spec fn spec_name(&self) -> Seq<char> {
        self.name@
    }

    pub closed spec fn spec_name_preserve_case(&self) -> Seq<char> {
        self.name_preserve_case@
    }

    pub closed spec fn spec_value(&self) -> Seq<char> {
        self.value@
    }

    /// An attribute with the given lowercased name, original name and value.
    pub fn new(name: String, name_preserve_case: String, value: String) -> (r: AttributeView)
        ensures
            r.spec_name() == name@,
            r.spec_name_preserve_case() == name_preserve_case@,
            r.spec_value() == value@,
    {
        AttributeView { name, name_preserve_case, value }
    }

    /// Attribute name, ASCII-lowercased.
    pub fn name(&self) -> (r: &str)
        ensures
            r@ == self.spec_name(),
    {
        self.name.as_str()
    }

    /// Attribute name with original case preserved.
    pub fn name_preserve_case(&self) -> (r: &str)
        ensures
            r@ == self.spec_name_preserve_case(),
    {
        self.name_preserve_case.as_str()
    }

    /// Attribute value (may contain HTML/XML entities).
    pub fn value(&self) -> (r: &str)
        ensures
            r@ == self.spec_value(),
    {
        self.value.as_str()
    }

    /// A copy of this attribute.
    pub fn duplicate(&self) -> (r: AttributeView)
        ensures
            r.spec_name() == self.spec_name(),
            r.spec_name_preserve_case() == self.spec_name_preserve_case(),
            r.spec_value() == self.spec_value(),
    {
        AttributeView {
            name: self.name.clone(),
            name_preserve_case: self.name_preserve_case.clone(),
            value: self.value.clone(),
        }
    }
}

/// Index of the first attribute whose (lowercased) name is `lowered`, or the count when none is.
pub open spec fn attribute_index(attrs: Seq<AttributeView>, lowered: Seq<char>) -> int
    decreases attrs.len(),
{
    if attrs.len() == 0 {
        0
    } else if attrs[0].spec_name() == lowered {
        0
    } else {
        1 + attribute_index(attrs.drop_first(), lowered)
    }
}

/// The value of the first attribute named `name` (compared ASCII case-insensitively);
/// `None` when there is none or `name` cannot name an attribute.
pub open spec fn spec_get_attribute(attrs: Seq<AttributeView>, name: Seq<char>) -> Option<
    Seq<char>,
> {
    if !valid_attribute_name(name) {
        None
    } else if attribute_index(attrs, lower(name)) < attrs.len() {
        Some(attrs[attribute_index(attrs, lower(name))].spec_value())
    } else {
        None
    }
}

/// Read-only surface for filter predicates.
///
/// Holds the tag and attributes of one element; it exposes no DOM mutation.
#[derive(Debug)]
pub struct ElementView {
    tag_name: String,
    tag_name_preserve_case: String,
    is_self_closing: bool,
    can_have_content: bool,
    namespace_uri: &'static str,
    attributes: Vec<AttributeView>,
}

fn lower_char_exec(c: char) -> (r: char)
    ensures
        r == lower_char(c),
{
    if 'A' <= c && c <= 'Z' {
        let code: u32 = (c as u32) + 32;
        assert(code < 128);
        let b: u8 = code as u8;
        b as char
    } else {
        c
    }
}

fn forbidden_exec(c: char) -> (r: bool)
    ensures
        r == forbidden_in_name(c),
{
    c == ' ' || c == '\n' || c == '\r' || c == '\t' || c == '\x0C' || c == '/' || c == '>' || c
        == '='
}

/// Whether `candidate` equals the ASCII lowercase of `name`.
fn equals_lowered(candidate: &str, name: &str) -> (r: bool)
    ensures
        r == (candidate@ == lower(name@)),
{
    let n = name.unicode_len();
    if candidate.unicode_len() != n {
        assert(candidate@.len() != lower(name@).len());
        return false;
    }
    let mut i: usize = 0;
    while i < n
        invariant
            n == name@.len(),
            candidate@.len() == n,
            i <= n,
            forall|j: int| 0 <= j < i ==> candidate@[j] == lower_char(name@[j]),
        decreases n - i,
    {
        if candidate.get_char(i) != lower_char_exec(name.get_char(i)) {
            assert(candidate@[i as int] != lower(name@)[i as int]);
            return false;
        }
        i += 1;
    }
    assert(candidate@ =~= lower(name@));
    true
}

fn valid_name_exec(name: &str) -> (r: bool)
    ensures
        r == valid_attribute_name(name@),
{
    let n = name.unicode_len();
    if n == 0 {
        return false;
    }
    let mut i: usize = 0;
    while i < n
        invariant
            n == name@.len(),
            i <= n,
            forall|j: int| 0 <= j < i ==> !forbidden_in_name(#[trigger] name@[j]),
        decreases n - i,
    {
        if forbidden_exec(name.get_char(i)) {
            return false;
        }
        i += 1;
    }
    true
}

impl ElementView {
    pub closed spec fn spec_tag_name(&self) -> Seq<char> {
        self.tag_name@
    }

    pub closed spec fn spec_tag_name_preserve_case(&self) -> Seq<char> {
        self.tag_name_preserve_case@
    }

    pub closed spec fn spec_is_self_closing(&self) -> bool {
        self.is_self_closing
    }

    pub closed spec fn spec_can_have_content(&self) -> bool {
        self.can_have_content
    }

    pub closed spec fn spec_namespace_uri(&self) -> Seq<char> {
        self.namespace_uri@
    }

    pub closed spec fn spec_attributes(&self) -> Seq<AttributeView> {
        self.attributes@
    }

    /// A view over an element with the given tag (lowercased and as written), flags,
    /// namespace and attributes.
    pub fn new(
        tag_name: String,
        tag_name_preserve_case: String,
        is_self_closing: bool,
        can_have_content: bool,
        namespace_uri: &'static str,
        attributes: Vec<AttributeView>,
    ) -> (r: ElementView)
        ensures
            r.spec_tag_name() == tag_name@,
            r.spec_tag_name_preserve_case() == tag_name_preserve_case@,
            r.spec_is_self_closing() == is_self_closing,
            r.spec_can_have_content() == can_have_content,
            r.spec_namespace_uri() == namespace_uri@,
            r.spec_attributes() == attributes@,
    {
        ElementView {
            tag_name,
            tag_name_preserve_case,
            is_self_closing,
            can_have_content,
            namespace_uri,
            attributes,
        }
    }

    /// Tag name, ASCII-lowercased.
    pub fn tag_name(&self) -> (r: String)
        ensures
            r@ == self.spec_tag_name(),
    {
        self.tag_name.clone()
    }

    /// Tag name with original case preserved.
    pub fn tag_name_preserve_case(&self) -> (r: String)
        ensures
            r@ == self.spec_tag_name_preserve_case(),
    {
        self.tag_name_preserve_case.clone()
    }

    /// Whether the start tag ends with `/>` in the source.
    pub fn is_self_closing(&self) -> (r: bool)
        ensures
            r == self.spec_is_self_closing(),
    {
        self.is_self_closing
    }

    /// Whether the element can have inner content (non-void / not self-closed foreign).
    pub fn can_have_content(&self) -> (r: bool)
        ensures
            r == self.spec_can_have_content(),
    {
        self.can_have_content
    }

    /// Namespace URI of the element.
    pub fn namespace_uri(&self) -> (r: &'static str)
        ensures
            r@ == self.spec_namespace_uri(),
    {
        self.namespace_uri
    }

    /// Index of the first attribute named `name` (ASCII case-insensitively).
    fn find_attribute(&self, name: &str) -> (r: Option<usize>)
        ensures
            match spec_get_attribute(self.spec_attributes(), name@) {
                None => r is None,
                Some(_) => r matches Some(i) && i == attribute_index(
                    self.spec_attributes(),
                    lower(name@),
                ) && i < self.spec_attributes().len(),
            },
    {
        if !valid_name_exec(name) {
            return None;
        }
        let ghost attrs = self.attributes@;
        let ghost lowered = lower(name@);
        let mut i: usize = 0;
        assert(attrs.skip(0) =~= attrs);
        while i < self.attributes.len()
            invariant
                attrs == self.attributes@,
                lowered == lower(name@),
                valid_attribute_name(name@),
                i <= attrs.len(),
                attribute_index(attrs, lowered) == i + attribute_index(attrs.skip(i as int), lowered),
            decreases attrs.len() - i,
        {
            assert(attrs.skip(i as int).drop_first() =~= attrs.skip(i + 1));
            if equals_lowered(self.attributes[i].name(), name) {
                return Some(i);
            }
            i += 1;
        }
        assert(attrs.skip(i as int).len() == 0);
        None
    }

    /// Value of the attribute named `name`, if present.
    pub fn get_attribute(&self, name: &str) -> (r: Option<String>)
        ensures
            match spec_get_attribute(self.spec_attributes(), name@) {
                None => r is None,
                Some(v) => r matches Some(s) && s@ == v,
            },
    {
        match self.find_attribute(name) {
            Some(i) => Some(self.attributes[i].value().to_owned()),
            None => None,
        }
    }

    /// Whether an attribute named `name` is present.
    pub fn has_attribute(&self, name: &str) -> (r: bool)
        ensures
            r == spec_get_attribute(self.spec_attributes(), name@) is Some,
    {
        self.find_attribute(name).is_some()
    }

    /// All attributes as owned views.
    pub fn attributes(&self) -> (r: Vec<AttributeView>)
        ensures
            r@.len() == self.spec_attributes().len(),
            forall|i: int|
                0 <= i < r@.len() ==> {
                    &&& (#[trigger] r@[i]).spec_name() == self.spec_attributes()[i].spec_name()
                    &&& r@[i].spec_name_preserve_case()
                        == self.spec_attributes()[i].spec_name_preserve_case()
                    &&& r@[i].spec_value() == self.spec_attributes()[i].spec_value()
                },
    {
        let mut out: Vec<AttributeView> = Vec::new();
        let mut i: usize = 0;
        while i < self.attributes.len()
            invariant
                i <= self.attributes@.len(),
                out@.len() == i,
                forall|j: int|
                    0 <= j < i ==> {
                        &&& (#[trigger] out@[j]).spec_name() == self.attributes@[j].spec_name()
                        &&& out@[j].spec_name_preserve_case()
                            == self.attributes@[j].spec_name_preserve_case()
                        &&& out@[j].spec_value() == self.attributes@[j].spec_value()
                    },
            decreases self.attributes@.len() - i,
        {
            out.push(self.attributes[i].duplicate());
            i += 1;
        }
        out
    }
}

} // verus!
