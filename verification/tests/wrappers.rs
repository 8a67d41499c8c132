use leptos_reactive::expr::Expr;
use leptos_reactive::html::{
    text, AnyElement, Attribute, Custom, ElementDescriptor, EventKind, HtmlElement, NodeRef, Text,
    ViewNode,
};
use leptos_reactive::runtime::{ReactiveError, Runtime};
use leptos_reactive::setter::SignalSetter;
use leptos_reactive::title::{Formatter, TitleContext};

#[test]
fn direct_setter_writes_the_value_as_is() {
    let mut rt = Runtime::new();
    let root = rt.root_scope();
    let (count, set_count) = rt.create_signal(root, 2, false).unwrap();
    let setter = SignalSetter::from(set_count);
    assert_eq!(setter.set(&mut rt, 4), Ok(()));
    assert_eq!(rt.read(count), Ok(4));
}

#[test]
fn mapped_setter_derives_the_written_value() {
    let mut rt = Runtime::new();
    let root = rt.root_scope();
    let (count, set_count) = rt.create_signal(root, 2, false).unwrap();
    let double = Expr::Add(Box::new(Expr::Input), Box::new(Expr::Input));
    let set_double = SignalSetter::map(set_count, double);
    assert_eq!(set_double.set(&mut rt, 4), Ok(()));
    assert_eq!(rt.read(count), Ok(8), "the derivation doubles the input");
}

#[test]
fn mapped_setter_with_a_faulting_derivation_writes_nothing() {
    let mut rt = Runtime::new();
    let root = rt.root_scope();
    let (count, set_count) = rt.create_signal(root, 2, false).unwrap();
    let bad = Expr::Rem(Box::new(Expr::Input), Box::new(Expr::Lit(0)));
    let setter = SignalSetter::map(set_count, bad);
    assert_eq!(setter.set(&mut rt, 4), Err(ReactiveError::ClosurePanic));
    assert_eq!(rt.read(count), Ok(2));
}

#[test]
fn element_attr_records_each_attribute_kind() {
    let root = Runtime::new().root_scope();
    let el = HtmlElement::new(root, Custom { tag: "my-element".to_string(), id: 1 });
    let el = el.attr("id".to_string(), Attribute::Str("app".to_string()));
    let el = el.attr("disabled".to_string(), Attribute::Flag(true));
    let el = el.attr("hidden".to_string(), Attribute::Flag(false));
    let el = el.attr(
        "title".to_string(),
        Attribute::OptStr(Some("hello".to_string())),
    );
    let el = el.attr("lang".to_string(), Attribute::OptStr(None));
    let pairs = el.attr_pairs();
    assert_eq!(
        pairs,
        vec![
            ("id".to_string(), "app".to_string()),
            ("disabled".to_string(), String::new()),
            ("title".to_string(), "hello".to_string()),
        ]
    );
}

#[test]
fn class_merges_into_the_first_class_attribute() {
    let root = Runtime::new().root_scope();
    let el = HtmlElement::new(root, Custom { tag: "div-like".to_string(), id: 2 });
    let el = el.class("card".to_string(), true);
    let el = el.class("wide".to_string(), true);
    let el = el.class("hidden".to_string(), false);
    let pairs = el.attr_pairs();
    assert_eq!(pairs, vec![("class".to_string(), "card wide".to_string())]);
}

#[test]
fn node_ref_and_on_pass_the_element_through() {
    let root = Runtime::new().root_scope();
    let el = HtmlElement::new(root, Custom { tag: "button-like".to_string(), id: 3 });
    let slot = NodeRef { slot: 9 };
    let el = el.node_ref(&slot);
    let el = el.on(
        EventKind { event_name: "click".to_string(), bubbles: true },
        17,
    );
    assert_eq!(el.attr_pairs(), Vec::<(String, String)>::new());
    assert_eq!(el.children.len(), 0);
}

#[test]
fn children_collect_in_order() {
    let root = Runtime::new().root_scope();
    let el = HtmlElement::new(root, AnyElement { tag: "p-like".to_string(), void: false, id: 4 });
    let el = el.child(ViewNode::Text(text("one".to_string())));
    let el = el.child(ViewNode::Text(text("two".to_string())));
    assert_eq!(el.children.len(), 2);
    match &el.children[0] {
        ViewNode::Text(Text { content }) => assert_eq!(content, "one"),
        _ => panic!("expected a text child"),
    }
    assert!(!el.element.is_void());
    assert_eq!(el.element.name(), "p-like");
    assert_eq!(el.element.hydration_id(), 4);
}

#[test]
fn title_without_text_renders_nothing() {
    let ctx = TitleContext::default();
    assert_eq!(ctx.as_string(), None);
}

#[test]
fn title_text_passes_through_without_a_formatter() {
    let ctx = TitleContext { formatter: None, text: Some("Home".to_string()) };
    assert_eq!(ctx.as_string(), Some("Home".to_string()));
}

#[test]
fn title_formatter_wraps_each_text_value() {
    let f = Formatter { prefix: String::new(), suffix: " - My Site".to_string() };
    let ctx = TitleContext { formatter: Some(f), text: Some("Page A".to_string()) };
    assert_eq!(ctx.as_string(), Some("Page A - My Site".to_string()));
}

#[test]
fn id_and_prop_behave_like_the_server_branch() {
    let root = Runtime::new().root_scope();
    let el = HtmlElement::new(root, Custom { tag: "panel".to_string(), id: 5 });
    let el = el.id("main".to_string());
    let el = el.prop("value".to_string(), Attribute::Str("7".to_string()));
    assert_eq!(el.attr_pairs(), vec![("id".to_string(), "main".to_string())]);
}

#[test]
fn into_any_erases_the_tag_type_and_keeps_the_build() {
    let root = Runtime::new().root_scope();
    let el = HtmlElement::new(root, Custom { tag: "widget".to_string(), id: 6 });
    let el = el.class("boxed".to_string(), true);
    let any = el.into_any();
    assert_eq!(any.element.tag, "widget");
    assert!(!any.element.void);
    assert_eq!(any.element.id, 6);
    assert_eq!(any.attr_pairs(), vec![("class".to_string(), "boxed".to_string())]);
}

#[test]
fn custom_and_from_html_start_builds() {
    let root = Runtime::new().root_scope();
    let desc = AnyElement { tag: "gauge".to_string(), void: false, id: 8 };
    let el = leptos_reactive::html::custom(root, desc);
    assert_eq!(el.element.tag, "gauge");
    assert_eq!(el.element.id, 8);
    let pre = HtmlElement::from_html(
        root,
        Custom { tag: "inner".to_string(), id: 9 },
        "<b>hi</b>".to_string(),
    );
    assert_eq!(pre.prerendered, Some("<b>hi</b>".to_string()));
}

#[test]
fn set_title_replaces_only_what_is_given() {
    let mut ctx = TitleContext::default();
    leptos_reactive::title::set_title(
        &mut ctx,
        Some(Formatter { prefix: String::new(), suffix: " | Site".to_string() }),
        None,
    );
    leptos_reactive::title::set_title(&mut ctx, None, Some("Docs".to_string()));
    assert_eq!(ctx.as_string(), Some("Docs | Site".to_string()));
    leptos_reactive::title::set_title(&mut ctx, None, Some("Blog".to_string()));
    assert_eq!(ctx.as_string(), Some("Blog | Site".to_string()));
}

#[test]
fn inner_html_replaces_the_children_with_raw_markup() {
    let root = Runtime::new().root_scope();
    let el = HtmlElement::new(root, Custom { tag: "card".to_string(), id: 10 });
    let el = el.child(ViewNode::Text(text("gone".to_string())));
    let el = el.inner_html("<b>kept</b>".to_string());
    assert_eq!(el.children.len(), 1);
    match &el.children[0] {
        ViewNode::Raw(html) => assert_eq!(html, "<b>kept</b>"),
        _ => panic!("expected raw markup"),
    }
}

#[test]
fn hydration_attrs_appends_the_marker_without_clobbering_an_id() {
    let root = Runtime::new().root_scope();
    let plain = HtmlElement::new(root, Custom { tag: "row".to_string(), id: 11 });
    let pairs = plain.hydration_attrs(7);
    assert_eq!(pairs, vec![("id".to_string(), "_7".to_string())]);
    let with_id = HtmlElement::new(root, Custom { tag: "row".to_string(), id: 12 })
        .id("main".to_string());
    let pairs = with_id.hydration_attrs(8);
    assert_eq!(
        pairs,
        vec![
            ("id".to_string(), "main".to_string()),
            ("leptos-hk".to_string(), "_8".to_string()),
        ]
    );
}

#[test]
fn cloned_setters_behave_like_the_original() {
    let mut rt = Runtime::new();
    let root = rt.root_scope();
    let (count, set_count) = rt.create_signal(root, 0, false).unwrap();
    let setter = SignalSetter::from(set_count);
    let copy = setter.clone();
    assert_eq!(copy.set(&mut rt, 5), Ok(()));
    assert_eq!(rt.read(count), Ok(5));
}

#[test]
fn into_view_carries_the_build_and_appends_the_marker() {
    let root = Runtime::new().root_scope();
    let el = HtmlElement::new(root, Custom { tag: "panel".to_string(), id: 37 });
    let el = el.class("boxed".to_string(), true);
    let el = el.child(ViewNode::Text(text("body".to_string())));
    match el.into_view() {
        ViewNode::Element(data) => {
            assert_eq!(data.tag, "panel");
            assert!(!data.void);
            assert_eq!(
                data.attrs,
                vec![
                    ("class".to_string(), "boxed".to_string()),
                    ("id".to_string(), "_37".to_string()),
                ]
            );
            assert_eq!(data.children.len(), 1);
            assert_eq!(data.prerendered, None);
        }
        _ => panic!("expected an element node"),
    }
}
