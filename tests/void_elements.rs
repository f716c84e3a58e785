use lint_rules::text_range::TextRange;
use lint_rules::void_elements::{
    find_attribute_by_name, is_void_dom_element, AnyJsxAttribute, NoVoidElementsWithChildren,
    NoVoidElementsWithChildrenCause, NoVoidElementsWithChildrenQuery, VoidElementFix,
};

fn attr(name: &str) -> AnyJsxAttribute {
    AnyJsxAttribute::JsxAttribute { name: name.to_string() }
}

#[test]
fn void_element_names() {
    for name in ["area", "base", "br", "col", "embed", "hr", "img", "input", "keygen", "link", "menuitem", "meta", "param", "source", "track", "wbr"] {
        assert!(is_void_dom_element(name), "{name}");
    }
    assert!(!is_void_dom_element("div"));
    assert!(!is_void_dom_element("BR"));
    assert!(!is_void_dom_element(""));
}

#[test]
fn first_attribute_by_name() {
    let attrs = vec![attr("id"), AnyJsxAttribute::JsxSpreadAttribute, attr("children"), attr("children")];
    assert_eq!(find_attribute_by_name(&attrs, "children"), Some(2));
    assert_eq!(find_attribute_by_name(&attrs, "dangerouslySetInnerHTML"), None);
}

#[test]
fn element_with_children_is_reported_and_closed() {
    // <br>child</br>
    let q = NoVoidElementsWithChildrenQuery::JsxElement {
        name: Some("br".to_string()),
        attributes: vec![attr("className")],
        has_children: true,
    };
    let st = NoVoidElementsWithChildren::run(&q).unwrap();
    assert_eq!(st.element_name, "br");
    assert_eq!(st.diagnostic_message(), "br is a void element tag and must not have children.");
    assert_eq!(st.action_message(), "Remove the children.");
    assert_eq!(
        NoVoidElementsWithChildren::action(&q, &st),
        VoidElementFix::SelfClosing { kept_attributes: vec![0] }
    );
}

#[test]
fn self_closing_element_with_both_props() {
    // <img dangerouslySetInnerHTML={x} alt="" children={y} />
    let q = NoVoidElementsWithChildrenQuery::JsxSelfClosingElement {
        name: Some("img".to_string()),
        attributes: vec![attr("dangerouslySetInnerHTML"), attr("alt"), attr("children")],
    };
    let st = NoVoidElementsWithChildren::run(&q).unwrap();
    assert_eq!(
        st.cause,
        NoVoidElementsWithChildrenCause::Jsx {
            children_cause: false,
            dangerous_prop_cause: Some(0),
            children_prop: Some(2),
        }
    );
    assert_eq!(
        st.diagnostic_message(),
        "img is a void element tag and must not have children, or the dangerouslySetInnerHTML prop."
    );
    assert_eq!(st.action_message(), "Remove the children and the dangerouslySetInnerHTML prop.");
    assert_eq!(
        NoVoidElementsWithChildren::action(&q, &st),
        VoidElementFix::Remove { children: false, props: vec![2, 0] }
    );
}

#[test]
fn element_with_dangerous_prop_drops_it() {
    let q = NoVoidElementsWithChildrenQuery::JsxElement {
        name: Some("hr".to_string()),
        attributes: vec![attr("id"), attr("dangerouslySetInnerHTML"), attr("title")],
        has_children: false,
    };
    let st = NoVoidElementsWithChildren::run(&q).unwrap();
    assert_eq!(
        st.diagnostic_message(),
        "hr is a void element tag and must not have the dangerouslySetInnerHTML prop."
    );
    assert_eq!(st.action_message(), "Remove the dangerouslySetInnerHTML prop.");
    assert_eq!(
        NoVoidElementsWithChildren::action(&q, &st),
        VoidElementFix::SelfClosing { kept_attributes: vec![0, 2] }
    );
}

#[test]
fn create_element_call_removes_children_and_props() {
    // React.createElement('br', { children: 'x' }, 'child')
    let q = NoVoidElementsWithChildrenQuery::ReactCreateElement {
        element_type: Some("br".to_string()),
        props: vec![attr("children")],
        has_children: true,
    };
    let st = NoVoidElementsWithChildren::run(&q).unwrap();
    assert_eq!(
        NoVoidElementsWithChildren::action(&q, &st),
        VoidElementFix::Remove { children: true, props: vec![0] }
    );
}

#[test]
fn acceptable_elements_are_not_reported() {
    let div = NoVoidElementsWithChildrenQuery::JsxElement {
        name: Some("div".to_string()),
        attributes: vec![attr("children")],
        has_children: true,
    };
    assert!(NoVoidElementsWithChildren::run(&div).is_none());
    let br = NoVoidElementsWithChildrenQuery::JsxSelfClosingElement {
        name: Some("br".to_string()),
        attributes: vec![attr("id")],
    };
    assert!(NoVoidElementsWithChildren::run(&br).is_none());
    let member = NoVoidElementsWithChildrenQuery::JsxElement { name: None, attributes: vec![], has_children: true };
    assert!(NoVoidElementsWithChildren::run(&member).is_none());
    let call = NoVoidElementsWithChildrenQuery::ReactCreateElement {
        element_type: Some("input".to_string()),
        props: vec![attr("value")],
        has_children: false,
    };
    assert!(NoVoidElementsWithChildren::run(&call).is_none());
}

#[test]
fn diagnostic_carries_the_message() {
    let q = NoVoidElementsWithChildrenQuery::JsxElement {
        name: Some("wbr".to_string()),
        attributes: vec![],
        has_children: true,
    };
    let st = NoVoidElementsWithChildren::run(&q).unwrap();
    let d = NoVoidElementsWithChildren::diagnostic(TextRange { start: 0, end: 15 }, &st);
    assert_eq!(d.range, TextRange { start: 0, end: 15 });
    assert_eq!(d.message, "wbr is a void element tag and must not have children.");
}
