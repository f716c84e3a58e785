//! Void DOM elements (`br`, `img`, ...) given children or `dangerouslySetInnerHTML`.
use vstd::prelude::*;
use vstd::string::*;

use crate::diagnostic::RuleDiagnostic;
use crate::text_range::TextRange;

verus! {

/// Whether `a` and `b` hold the same characters.
pub fn str_equal(a: &str, b: &str) -> (r: bool)
    ensures
        r == (a@ == b@),
{
    let n = a.unicode_len();
    if n != b.unicode_len() {
        return false;
    }
    let mut i: usize = 0;
    while i < n
        invariant
            n == a@.len(),
            n == b@.len(),
            i <= n,
            forall|j: int| 0 <= j < i ==> a@[j] == b@[j],
        decreases n - i,
    {
        if a.get_char(i) != b.get_char(i) {
            return false;
        }
        i += 1;
    }
    assert(a@ =~= b@);
    true
}

/// The tag names of the void DOM elements.
pub open spec fn is_void_name(name: Seq<char>) -> bool {
    ||| name == "area"@
    ||| name == "base"@
    ||| name == "br"@
    ||| name == "col"@
    ||| name == "embed"@
    ||| name == "hr"@
    ||| name == "img"@
    ||| name == "input"@
    ||| name == "keygen"@
    ||| name == "link"@
    ||| name == "menuitem"@
    ||| name == "meta"@
    ||| name == "param"@
    ||| name == "source"@
    ||| name == "track"@
    ||| name == "wbr"@
}

/// Whether `element_name` is the tag name of a void DOM element.
pub fn is_void_dom_element(element_name: &str) -> (r: bool)
    ensures
        r == is_void_name(element_name@),
{
    str_equal(element_name, "area") || str_equal(element_name, "base") || str_equal(
        element_name,
        "br",
    ) || str_equal(element_name, "col") || str_equal(element_name, "embed") || str_equal(
        element_name,
        "hr",
    ) || str_equal(element_name, "img") || str_equal(element_name, "input") || str_equal(
        element_name,
        "keygen",
    ) || str_equal(element_name, "link") || str_equal(element_name, "menuitem") || str_equal(
        element_name,
        "meta",
    ) || str_equal(element_name, "param") || str_equal(element_name, "source") || str_equal(
        element_name,
        "track",
    ) || str_equal(element_name, "wbr")
}

/// A JSX attribute: a named one, or a spread.
#[derive(Debug)]
pub enum AnyJsxAttribute {
    JsxAttribute { name: String },
    JsxSpreadAttribute,
}

/// The index of the first attribute of `attrs` named `name`.
pub open spec fn first_attribute(attrs: Seq<AnyJsxAttribute>, name: Seq<char>) -> Option<int>
    decreases attrs.len(),
{
    if attrs.len() == 0 {
        None
    } else {
        match first_attribute(attrs.drop_last(), name) {
            Some(i) => Some(i),
            None => match attrs.last() {
                AnyJsxAttribute::JsxAttribute { name: n } => if n@ == name {
                    Some(attrs.len() - 1)
                } else {
                    None
                },
                AnyJsxAttribute::JsxSpreadAttribute => None,
            },
        }
    }
}

/// The index of the first attribute of `attrs` named `name`, if any.
pub fn find_attribute_by_name(attrs: &Vec<AnyJsxAttribute>, name: &str) -> (r: Option<usize>)
    ensures
        match r {
            Some(i) => first_attribute(attrs@, name@) == Some(i as int),
            None => first_attribute(attrs@, name@) is None,
        },
{
    let mut i: usize = 0;
    while i < attrs.len()
        invariant
            i <= attrs@.len(),
            first_attribute(attrs@.subrange(0, i as int), name@) is None,
        decreases attrs.len() - i,
    {
        assert(attrs@.subrange(0, i + 1).drop_last() =~= attrs@.subrange(0, i as int));
        let found = match &attrs[i] {
            AnyJsxAttribute::JsxAttribute { name: n } => str_equal(n.as_str(), name),
            AnyJsxAttribute::JsxSpreadAttribute => false,
        };
        proof {
            lemma_first_attribute_prefix(attrs@, name@, i + 1);
        }
        if found {
            return Some(i);
        }
        i += 1;
    }
    assert(attrs@.subrange(0, i as int) =~= attrs@);
    None
}

/// A first match in a prefix is the first match of the whole.
proof fn lemma_first_attribute_prefix(attrs: Seq<AnyJsxAttribute>, name: Seq<char>, k: int)
    requires
        0 <= k <= attrs.len(),
    ensures
        first_attribute(attrs.subrange(0, k), name) is Some ==> first_attribute(attrs, name)
            == first_attribute(attrs.subrange(0, k), name),
    decreases attrs.len() - k,
{
    if k < attrs.len() {
        lemma_first_attribute_prefix(attrs, name, k + 1);
        assert(attrs.subrange(0, k + 1).drop_last() =~= attrs.subrange(0, k));
    } else {
        assert(attrs.subrange(0, k) =~= attrs);
    }
}

/// A candidate element: a JSX element with children, a self-closing JSX element, or
/// a `React.createElement` call.
#[derive(Debug)]
pub enum NoVoidElementsWithChildrenQuery {
    /// `<name attributes>children</name>`; `name` is `None` unless it is a plain name.
    JsxElement { name: Option<String>, attributes: Vec<AnyJsxAttribute>, has_children: bool },
    /// `<name attributes />`; `name` is `None` unless it is a plain name.
    JsxSelfClosingElement { name: Option<String>, attributes: Vec<AnyJsxAttribute> },
    /// `React.createElement(type, props, children)`: `element_type` is the text of
    /// a string literal type, `props` the object literal's members as attributes.
    ReactCreateElement {
        element_type: Option<String>,
        props: Vec<AnyJsxAttribute>,
        has_children: bool,
    },
}

/// Why an element is reported; the props are indices into its attributes.
#[derive(Clone, Copy, Debug, PartialEq, Eq, Structural)]
pub enum NoVoidElementsWithChildrenCause {
    Jsx { children_cause: bool, dangerous_prop_cause: Option<usize>, children_prop: Option<usize> },
    ReactCreateElement {
        children_cause: bool,
        dangerous_prop_cause: Option<usize>,
        children_prop: Option<usize>,
    },
}

/// A reported element: its name and the cause.
#[derive(Debug)]
pub struct NoVoidElementsWithChildrenState {
    pub element_name: String,
    pub cause: NoVoidElementsWithChildrenCause,
}

impl NoVoidElementsWithChildrenCause {
    pub open spec fn spec_children(self) -> bool {
        match self {
            NoVoidElementsWithChildrenCause::Jsx { children_cause, children_prop, .. } => children_cause
                || children_prop is Some,
            NoVoidElementsWithChildrenCause::ReactCreateElement {
                children_cause,
                children_prop,
                ..
            } => children_cause || children_prop is Some,
        }
    }

    pub open spec fn spec_dangerous(self) -> bool {
        match self {
            NoVoidElementsWithChildrenCause::Jsx { dangerous_prop_cause, .. } => dangerous_prop_cause is Some,
            NoVoidElementsWithChildrenCause::ReactCreateElement { dangerous_prop_cause, .. } =>
                dangerous_prop_cause is Some,
        }
    }
}

impl NoVoidElementsWithChildrenState {
    pub fn new(element_name: String, cause: NoVoidElementsWithChildrenCause) -> (r: Self)
        ensures
            r.element_name == element_name,
            r.cause == cause,
    {
        NoVoidElementsWithChildrenState { element_name, cause }
    }

    /// Whether children, given as such or as a `children` prop, are a cause.
    pub fn has_children_cause(&self) -> (r: bool)
        ensures
            r == self.cause.spec_children(),
    {
        match self.cause {
            NoVoidElementsWithChildrenCause::Jsx { children_prop, children_cause, .. } => children_cause
                || children_prop.is_some(),
            NoVoidElementsWithChildrenCause::ReactCreateElement {
                children_prop,
                children_cause,
                ..
            } => children_cause || children_prop.is_some(),
        }
    }

    /// Whether a `dangerouslySetInnerHTML` prop is a cause.
    pub fn has_dangerous_prop_cause(&self) -> (r: bool)
        ensures
            r == self.cause.spec_dangerous(),
    {
        match self.cause {
            NoVoidElementsWithChildrenCause::Jsx { dangerous_prop_cause, .. } => dangerous_prop_cause.is_some(),
            NoVoidElementsWithChildrenCause::ReactCreateElement { dangerous_prop_cause, .. } =>
                dangerous_prop_cause.is_some(),
        }
    }
}

/// The report for an element named `name` with the given causes.
pub open spec fn diagnostic_text(name: Seq<char>, children: bool, dangerous: bool) -> Seq<char> {
    if children && dangerous {
        name + " is a void element tag and must not have children, or the dangerouslySetInnerHTML prop."@
    } else if children {
        name + " is a void element tag and must not have children."@
    } else {
        name + " is a void element tag and must not have the dangerouslySetInnerHTML prop."@
    }
}

/// The description of the fix for the given causes.
pub open spec fn action_text(children: bool, dangerous: bool) -> Seq<char> {
    if children && dangerous {
        "Remove the children and the dangerouslySetInnerHTML prop."@
    } else if children {
        "Remove the children."@
    } else {
        "Remove the dangerouslySetInnerHTML prop."@
    }
}

impl NoVoidElementsWithChildrenState {
    pub open spec fn has_cause(&self) -> bool {
        self.cause.spec_children() || self.cause.spec_dangerous()
    }

    /// The message that reports this element.
    pub fn diagnostic_message(&self) -> (r: String)
        requires
            self.has_cause(),
        ensures
            r@ == diagnostic_text(
                self.element_name@,
                self.cause.spec_children(),
                self.cause.spec_dangerous(),
            ),
    {
        let has_children_cause = self.has_children_cause();
        let has_dangerous_cause = self.has_dangerous_prop_cause();
        let mut r = self.element_name.clone();
        if has_children_cause && has_dangerous_cause {
            r.append(" is a void element tag and must not have children, or the dangerouslySetInnerHTML prop.");
        } else if has_children_cause {
            r.append(" is a void element tag and must not have children.");
        } else {
            r.append(" is a void element tag and must not have the dangerouslySetInnerHTML prop.");
        }
        r
    }

    /// The description of the fix for this element.
    pub fn action_message(&self) -> (r: String)
        requires
            self.has_cause(),
        ensures
            r@ == action_text(self.cause.spec_children(), self.cause.spec_dangerous()),
    {
        let has_children_cause = self.has_children_cause();
        let has_dangerous_cause = self.has_dangerous_prop_cause();
        if has_children_cause && has_dangerous_cause {
            String::from_str("Remove the children and the dangerouslySetInnerHTML prop.")
        } else if has_children_cause {
            String::from_str("Remove the children.")
        } else {
            String::from_str("Remove the dangerouslySetInnerHTML prop.")
        }
    }
}

pub open spec fn as_index(o: Option<int>) -> Option<usize> {
    match o {
        Some(i) => Some(i as usize),
        None => None,
    }
}

/// The element reported for `q`, if any: its name and the cause.
pub open spec fn void_element_state(q: NoVoidElementsWithChildrenQuery) -> Option<
    (Seq<char>, NoVoidElementsWithChildrenCause),
> {
    match q {
        NoVoidElementsWithChildrenQuery::JsxElement { name, attributes, has_children } => {
            let dangerous = as_index(first_attribute(attributes@, "dangerouslySetInnerHTML"@));
            let children = as_index(first_attribute(attributes@, "children"@));
            match name {
                Some(n) => if is_void_name(n@) && (dangerous is Some || has_children
                    || children is Some) {
                    Some(
                        (
                            n@,
                            NoVoidElementsWithChildrenCause::Jsx {
                                children_cause: has_children,
                                dangerous_prop_cause: dangerous,
                                children_prop: children,
                            },
                        ),
                    )
                } else {
                    None
                },
                None => None,
            }
        },
        NoVoidElementsWithChildrenQuery::JsxSelfClosingElement { name, attributes } => {
            let dangerous = as_index(first_attribute(attributes@, "dangerouslySetInnerHTML"@));
            let children = as_index(first_attribute(attributes@, "children"@));
            match name {
                Some(n) => if is_void_name(n@) && (dangerous is Some || children is Some) {
                    Some(
                        (
                            n@,
                            NoVoidElementsWithChildrenCause::Jsx {
                                children_cause: false,
                                dangerous_prop_cause: dangerous,
                                children_prop: children,
                            },
                        ),
                    )
                } else {
                    None
                },
                None => None,
            }
        },
        NoVoidElementsWithChildrenQuery::ReactCreateElement { element_type, props, has_children } => {
            let dangerous = as_index(first_attribute(props@, "dangerouslySetInnerHTML"@));
            let children = as_index(first_attribute(props@, "children"@));
            match element_type {
                Some(n) => if is_void_name(n@) && (dangerous is Some || has_children
                    || children is Some) {
                    Some(
                        (
                            n@,
                            NoVoidElementsWithChildrenCause::ReactCreateElement {
                                children_cause: has_children,
                                dangerous_prop_cause: dangerous,
                                children_prop: children,
                            },
                        ),
                    )
                } else {
                    None
                },
                None => None,
            }
        },
    }
}

fn attribute_causes(attrs: &Vec<AnyJsxAttribute>) -> (r: (Option<usize>, Option<usize>))
    ensures
        r.0 == as_index(first_attribute(attrs@, "dangerouslySetInnerHTML"@)),
        r.1 == as_index(first_attribute(attrs@, "children"@)),
{
    (find_attribute_by_name(attrs, "dangerouslySetInnerHTML"), find_attribute_by_name(attrs, "children"))
}

/// The edit that fixes a reported element.
#[derive(Debug, PartialEq, Eq)]
pub enum VoidElementFix {
    /// Replace the element by a self-closing one that keeps these attributes, by index.
    SelfClosing { kept_attributes: Vec<usize> },
    /// Remove the children argument (where `children` is set) and these props, by index.
    Remove { children: bool, props: Vec<usize> },
}

/// The indices below `n` that are neither `a` nor `b`, in order.
pub open spec fn kept_indices(n: nat, a: Option<usize>, b: Option<usize>) -> Seq<usize>
    decreases n,
{
    if n == 0 {
        seq![]
    } else {
        let i = (n - 1) as usize;
        let rest = kept_indices((n - 1) as nat, a, b);
        if a == Some(i) || b == Some(i) {
            rest
        } else {
            rest.push(i)
        }
    }
}

/// The props present among `first` and `second`, in that order.
pub open spec fn present(first: Option<usize>, second: Option<usize>) -> Seq<usize> {
    let s: Seq<usize> = match first {
        Some(i) => seq![i],
        None => seq![],
    };
    match second {
        Some(j) => s.push(j),
        None => s,
    }
}

/// The fix for `cause` on the element `q`: a JSX element becomes self-closing
/// without the offending attributes; from a call the children argument and the
/// offending props go; from a self-closing element the offending attributes go.
pub open spec fn void_element_fix(
    q: NoVoidElementsWithChildrenQuery,
    cause: NoVoidElementsWithChildrenCause,
) -> (bool, Seq<usize>, bool) {
    match (q, cause) {
        (
            NoVoidElementsWithChildrenQuery::JsxElement { attributes, .. },
            NoVoidElementsWithChildrenCause::Jsx { children_prop, dangerous_prop_cause, .. },
        ) => (true, kept_indices(attributes@.len(), children_prop, dangerous_prop_cause), false),
        (
            NoVoidElementsWithChildrenQuery::ReactCreateElement { .. },
            NoVoidElementsWithChildrenCause::ReactCreateElement {
                children_cause,
                children_prop,
                dangerous_prop_cause,
            },
        ) => (false, present(children_prop, dangerous_prop_cause), children_cause),
        (
            NoVoidElementsWithChildrenQuery::JsxSelfClosingElement { .. },
            NoVoidElementsWithChildrenCause::Jsx { children_prop, dangerous_prop_cause, .. },
        ) => (false, present(children_prop, dangerous_prop_cause), false),
        _ => (false, seq![], false),
    }
}

fn present_props(first: Option<usize>, second: Option<usize>) -> (r: Vec<usize>)
    ensures
        r@ == present(first, second),
{
    let mut r: Vec<usize> = Vec::new();
    if let Some(i) = first {
        r.push(i);
    }
    if let Some(j) = second {
        r.push(j);
    }
    assert(r@ =~= present(first, second));
    r
}

/// Disallows void DOM elements with children or `dangerouslySetInnerHTML`.
pub struct NoVoidElementsWithChildren;

impl NoVoidElementsWithChildren {
    /// The element reported for `query`, if any.
    pub fn run(query: &NoVoidElementsWithChildrenQuery) -> (r: Option<NoVoidElementsWithChildrenState>)
        ensures
            match r {
                Some(st) => void_element_state(*query) == Some((st.element_name@, st.cause)),
                None => void_element_state(*query) is None,
            },
    {
        match query {
            NoVoidElementsWithChildrenQuery::JsxElement { name, attributes, has_children } => {
                let name = match name {
                    Some(n) => n,
                    None => return None,
                };
                if is_void_dom_element(name.as_str()) {
                    let (dangerous_prop, children_prop) = attribute_causes(attributes);
                    if dangerous_prop.is_some() || *has_children || children_prop.is_some() {
                        let cause = NoVoidElementsWithChildrenCause::Jsx {
                            children_prop,
                            dangerous_prop_cause: dangerous_prop,
                            children_cause: *has_children,
                        };
                        return Some(NoVoidElementsWithChildrenState::new(name.clone(), cause));
                    }
                }
            },
            NoVoidElementsWithChildrenQuery::JsxSelfClosingElement { name, attributes } => {
                let name = match name {
                    Some(n) => n,
                    None => return None,
                };
                if is_void_dom_element(name.as_str()) {
                    let (dangerous_prop, children_prop) = attribute_causes(attributes);
                    if dangerous_prop.is_some() || children_prop.is_some() {
                        let cause = NoVoidElementsWithChildrenCause::Jsx {
                            children_prop,
                            dangerous_prop_cause: dangerous_prop,
                            children_cause: false,
                        };
                        return Some(NoVoidElementsWithChildrenState::new(name.clone(), cause));
                    }
                }
            },
            NoVoidElementsWithChildrenQuery::ReactCreateElement { element_type, props, has_children } => {
                let element_name = match element_type {
                    Some(n) => n,
                    None => return None,
                };
                if is_void_dom_element(element_name.as_str()) {
                    let (dangerous_prop, children_prop) = attribute_causes(props);
                    if dangerous_prop.is_some() || *has_children || children_prop.is_some() {
                        let cause = NoVoidElementsWithChildrenCause::ReactCreateElement {
                            children_prop,
                            dangerous_prop_cause: dangerous_prop,
                            children_cause: *has_children,
                        };
                        return Some(
                            NoVoidElementsWithChildrenState::new(element_name.clone(), cause),
                        );
                    }
                }
            },
        }
        None
    }

    /// The report for an element whose trimmed range is `range`.
    pub fn diagnostic(range: TextRange, state: &NoVoidElementsWithChildrenState) -> (r: RuleDiagnostic)
        requires
            state.has_cause(),
        ensures
            r.range == range,
            r.message@ == diagnostic_text(
                state.element_name@,
                state.cause.spec_children(),
                state.cause.spec_dangerous(),
            ),
            r.detail is None,
            r.note is None,
    {
        RuleDiagnostic { range, message: state.diagnostic_message(), detail: None, note: None }
    }

    /// The edit that fixes the element `query` reported with `state`.
    pub fn action(query: &NoVoidElementsWithChildrenQuery, state: &NoVoidElementsWithChildrenState) -> (r:
        VoidElementFix)
        ensures
            ({
                let (self_closing, indices, children) = void_element_fix(*query, state.cause);
                match r {
                    VoidElementFix::SelfClosing { kept_attributes } => self_closing
                        && kept_attributes@ == indices,
                    VoidElementFix::Remove { children: c, props } => !self_closing && c == children
                        && props@ == indices,
                }
            }),
    {
        match (query, state.cause) {
            (
                NoVoidElementsWithChildrenQuery::JsxElement { attributes, .. },
                NoVoidElementsWithChildrenCause::Jsx { children_prop, dangerous_prop_cause, .. },
            ) => {
                let mut kept: Vec<usize> = Vec::new();
                let mut i: usize = 0;
                while i < attributes.len()
                    invariant
                        i <= attributes@.len(),
                        kept@ == kept_indices(i as nat, children_prop, dangerous_prop_cause),
                    decreases attributes.len() - i,
                {
                    if children_prop != Some(i) && dangerous_prop_cause != Some(i) {
                        kept.push(i);
                    }
                    i += 1;
                }
                VoidElementFix::SelfClosing { kept_attributes: kept }
            },
            (
                NoVoidElementsWithChildrenQuery::ReactCreateElement { .. },
                NoVoidElementsWithChildrenCause::ReactCreateElement {
                    children_cause,
                    children_prop,
                    dangerous_prop_cause,
                },
            ) => VoidElementFix::Remove {
                children: children_cause,
                props: present_props(children_prop, dangerous_prop_cause),
            },
            (
                NoVoidElementsWithChildrenQuery::JsxSelfClosingElement { .. },
                NoVoidElementsWithChildrenCause::Jsx { children_prop, dangerous_prop_cause, .. },
            ) => VoidElementFix::Remove {
                children: false,
                props: present_props(children_prop, dangerous_prop_cause),
            },
            _ => VoidElementFix::Remove { children: false, props: Vec::new() },
        }
    }
}

} // verus!
