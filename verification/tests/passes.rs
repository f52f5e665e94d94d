use svgcleaner::document::Document;
use svgcleaner::element::{AttrKind, Attribute, Element, ElementKind};
use svgcleaner::error::Error;
use svgcleaner::flatten::ungroup_defs;
use svgcleaner::ident::gen_id;
use svgcleaner::merge::{merge_duplicates, regroup_gradient_stops};

fn text(kind: AttrKind, value: &str) -> Attribute {
    Attribute { kind, is_link: false, value: value.to_string() }
}

fn link(kind: AttrKind, target: &str) -> Attribute {
    Attribute { kind, is_link: true, value: target.to_string() }
}

fn el(depth: usize, kind: ElementKind, id: &str, attrs: Vec<Attribute>) -> Element {
    Element { depth, kind, id: id.to_string(), attrs }
}

fn stop(depth: usize, offset: &str) -> Element {
    el(depth, ElementKind::Stop, "", vec![text(AttrKind::Offset, offset)])
}

fn doc(elems: Vec<Element>) -> Document {
    Document::from_elements(elems).unwrap()
}

#[test]
fn rm_1() {
    let mut d = doc(vec![
        el(0, ElementKind::Svg, "", vec![]),
        el(1, ElementKind::LinearGradient, "lg1", vec![text(AttrKind::X1, "50")]),
        stop(2, "0"),
        stop(2, "1"),
        el(1, ElementKind::LinearGradient, "lg2", vec![text(AttrKind::X1, "100")]),
        stop(2, "0"),
        stop(2, "1"),
    ]);
    assert!(regroup_gradient_stops(&mut d));
    assert_eq!(
        d.elements(),
        &vec![
            el(0, ElementKind::Svg, "", vec![]),
            el(1, ElementKind::LinearGradient, "lg3", vec![]),
            stop(2, "0"),
            stop(2, "1"),
            el(
                1,
                ElementKind::LinearGradient,
                "lg1",
                vec![text(AttrKind::X1, "50"), link(AttrKind::Href, "lg3")]
            ),
            el(
                1,
                ElementKind::LinearGradient,
                "lg2",
                vec![text(AttrKind::X1, "100"), link(AttrKind::Href, "lg3")]
            ),
        ]
    );
}

#[test]
fn rm_2() {
    let mut d = doc(vec![
        el(0, ElementKind::Svg, "", vec![]),
        el(1, ElementKind::LinearGradient, "lg1", vec![text(AttrKind::X1, "50")]),
        stop(2, "0"),
        stop(2, "1"),
        el(1, ElementKind::LinearGradient, "lg3", vec![text(AttrKind::X1, "50")]),
        stop(2, "0.5"),
        stop(2, "1"),
        el(1, ElementKind::LinearGradient, "lg2", vec![text(AttrKind::X1, "100")]),
        stop(2, "0"),
        stop(2, "1"),
        el(1, ElementKind::LinearGradient, "lg4", vec![text(AttrKind::X1, "100")]),
        stop(2, "0.5"),
        stop(2, "1"),
    ]);
    assert!(regroup_gradient_stops(&mut d));
    assert_eq!(
        d.elements(),
        &vec![
            el(0, ElementKind::Svg, "", vec![]),
            el(1, ElementKind::LinearGradient, "lg5", vec![]),
            stop(2, "0"),
            stop(2, "1"),
            el(
                1,
                ElementKind::LinearGradient,
                "lg1",
                vec![text(AttrKind::X1, "50"), link(AttrKind::Href, "lg5")]
            ),
            el(1, ElementKind::LinearGradient, "lg6", vec![]),
            stop(2, "0.5"),
            stop(2, "1"),
            el(
                1,
                ElementKind::LinearGradient,
                "lg3",
                vec![text(AttrKind::X1, "50"), link(AttrKind::Href, "lg6")]
            ),
            el(
                1,
                ElementKind::LinearGradient,
                "lg2",
                vec![text(AttrKind::X1, "100"), link(AttrKind::Href, "lg5")]
            ),
            el(
                1,
                ElementKind::LinearGradient,
                "lg4",
                vec![text(AttrKind::X1, "100"), link(AttrKind::Href, "lg6")]
            ),
        ]
    );
}

#[test]
fn regroup_leaves_distinct_stop_lists_alone() {
    let elems = vec![
        el(0, ElementKind::Svg, "", vec![]),
        el(1, ElementKind::LinearGradient, "a", vec![]),
        stop(2, "0"),
        el(1, ElementKind::RadialGradient, "b", vec![]),
        stop(2, "1"),
    ];
    let mut d = doc(elems.clone());
    assert!(!regroup_gradient_stops(&mut d));
    assert_eq!(d.elements(), &elems);
}

#[test]
fn regroup_skips_linked_and_empty_gradients() {
    let elems = vec![
        el(0, ElementKind::Svg, "", vec![]),
        el(1, ElementKind::LinearGradient, "a", vec![]),
        stop(2, "0"),
        el(1, ElementKind::LinearGradient, "b", vec![link(AttrKind::Href, "a")]),
        stop(2, "0"),
        el(1, ElementKind::LinearGradient, "c", vec![]),
    ];
    let mut d = doc(elems.clone());
    assert!(!regroup_gradient_stops(&mut d));
    assert_eq!(d.elements(), &elems);
}

#[test]
fn regroup_makes_the_shared_node_of_the_heads_kind() {
    let mut d = doc(vec![
        el(0, ElementKind::Svg, "", vec![]),
        el(1, ElementKind::RadialGradient, "r", vec![text(AttrKind::Cx, "5")]),
        stop(2, "0"),
        el(1, ElementKind::LinearGradient, "l", vec![]),
        stop(2, "0"),
    ]);
    assert!(regroup_gradient_stops(&mut d));
    assert_eq!(
        d.elements(),
        &vec![
            el(0, ElementKind::Svg, "", vec![]),
            el(1, ElementKind::RadialGradient, "rg1", vec![]),
            stop(2, "0"),
            el(
                1,
                ElementKind::RadialGradient,
                "r",
                vec![text(AttrKind::Cx, "5"), link(AttrKind::Href, "rg1")]
            ),
            el(1, ElementKind::LinearGradient, "l", vec![link(AttrKind::Href, "rg1")]),
        ]
    );
}

#[test]
fn regroup_ignores_ids_of_stops_and_drops_links_to_removed_stops() {
    let mut d = doc(vec![
        el(0, ElementKind::Svg, "", vec![]),
        el(1, ElementKind::LinearGradient, "a", vec![]),
        el(2, ElementKind::Stop, "s1", vec![text(AttrKind::Offset, "0")]),
        el(1, ElementKind::LinearGradient, "b", vec![]),
        el(2, ElementKind::Stop, "s2", vec![text(AttrKind::Offset, "0")]),
        el(
            1,
            ElementKind::Use,
            "",
            vec![link(AttrKind::Href, "s2"), link(AttrKind::Fill, "s1")],
        ),
    ]);
    assert!(regroup_gradient_stops(&mut d));
    assert_eq!(
        d.elements(),
        &vec![
            el(0, ElementKind::Svg, "", vec![]),
            el(1, ElementKind::LinearGradient, "lg1", vec![]),
            el(2, ElementKind::Stop, "s1", vec![text(AttrKind::Offset, "0")]),
            el(1, ElementKind::LinearGradient, "a", vec![link(AttrKind::Href, "lg1")]),
            el(1, ElementKind::LinearGradient, "b", vec![link(AttrKind::Href, "lg1")]),
            el(1, ElementKind::Use, "", vec![link(AttrKind::Fill, "s1")]),
        ]
    );
}

#[test]
fn regroup_twice_changes_nothing_more() {
    let mut d = doc(vec![
        el(0, ElementKind::Svg, "", vec![]),
        el(1, ElementKind::LinearGradient, "lg1", vec![text(AttrKind::X1, "50")]),
        stop(2, "0"),
        stop(2, "1"),
        el(1, ElementKind::LinearGradient, "lg2", vec![text(AttrKind::X1, "100")]),
        stop(2, "0"),
        stop(2, "1"),
    ]);
    assert!(regroup_gradient_stops(&mut d));
    let once = d.elements().clone();
    assert!(!regroup_gradient_stops(&mut d));
    assert_eq!(d.elements(), &once);
}

#[test]
fn merge_duplicates_needs_equal_attributes() {
    let elems = vec![
        el(0, ElementKind::Svg, "", vec![]),
        el(1, ElementKind::LinearGradient, "a", vec![text(AttrKind::X1, "50")]),
        stop(2, "0"),
        el(1, ElementKind::LinearGradient, "b", vec![text(AttrKind::X1, "100")]),
        stop(2, "0"),
    ];
    let mut d = doc(elems.clone());
    assert!(!merge_duplicates(&mut d, ElementKind::LinearGradient));
    assert_eq!(d.elements(), &elems);
}

#[test]
fn merge_duplicates_merges_equal_elements_of_the_kind() {
    let mut d = doc(vec![
        el(0, ElementKind::Svg, "", vec![]),
        el(1, ElementKind::RadialGradient, "a", vec![text(AttrKind::R, "5")]),
        stop(2, "0"),
        el(1, ElementKind::LinearGradient, "x", vec![text(AttrKind::R, "5")]),
        stop(2, "0"),
        el(1, ElementKind::RadialGradient, "b", vec![text(AttrKind::R, "5")]),
        stop(2, "0"),
    ]);
    assert!(merge_duplicates(&mut d, ElementKind::RadialGradient));
    assert_eq!(
        d.elements(),
        &vec![
            el(0, ElementKind::Svg, "", vec![]),
            el(1, ElementKind::RadialGradient, "rg1", vec![]),
            stop(2, "0"),
            el(
                1,
                ElementKind::RadialGradient,
                "a",
                vec![text(AttrKind::R, "5"), link(AttrKind::Href, "rg1")]
            ),
            el(1, ElementKind::LinearGradient, "x", vec![text(AttrKind::R, "5")]),
            stop(2, "0"),
            el(
                1,
                ElementKind::RadialGradient,
                "b",
                vec![text(AttrKind::R, "5"), link(AttrKind::Href, "rg1")]
            ),
        ]
    );
}

#[test]
fn merge_duplicates_of_filters() {
    let blur = |d: &str| el(2, ElementKind::FeGaussianBlur, "", vec![text(AttrKind::StdDeviation, d)]);
    let mut d = doc(vec![
        el(0, ElementKind::Svg, "", vec![]),
        el(1, ElementKind::Filter, "f1", vec![]),
        blur("2"),
        el(1, ElementKind::Filter, "f2", vec![]),
        blur("3"),
        el(1, ElementKind::Filter, "f3", vec![]),
        blur("2"),
    ]);
    assert!(merge_duplicates(&mut d, ElementKind::Filter));
    assert_eq!(
        d.elements(),
        &vec![
            el(0, ElementKind::Svg, "", vec![]),
            el(1, ElementKind::Filter, "def1", vec![]),
            blur("2"),
            el(1, ElementKind::Filter, "f1", vec![link(AttrKind::Href, "def1")]),
            el(1, ElementKind::Filter, "f2", vec![]),
            blur("3"),
            el(1, ElementKind::Filter, "f3", vec![link(AttrKind::Href, "def1")]),
        ]
    );
}

#[test]
fn gen_id_on_empty_document() {
    let d = Document::new();
    assert_eq!(gen_id(&d, "lg"), "lg1");
}

#[test]
fn gen_id_takes_the_lowest_unused_number() {
    let d = doc(vec![
        el(0, ElementKind::Svg, "lg3", vec![]),
        el(1, ElementKind::LinearGradient, "lg1", vec![]),
        el(1, ElementKind::LinearGradient, "rg2", vec![]),
    ]);
    assert_eq!(gen_id(&d, "lg"), "lg2");
    assert_eq!(gen_id(&d, "rg"), "rg1");
    assert_eq!(gen_id(&d, ""), "1");
}

#[test]
fn gen_id_counts_past_nine() {
    let mut elems = vec![el(0, ElementKind::Svg, "", vec![])];
    for n in 1..=120 {
        elems.push(el(1, ElementKind::Rect, &format!("n{}", n), vec![]));
    }
    let d = doc(elems);
    assert_eq!(gen_id(&d, "n"), "n121");
}

#[test]
fn gen_id_after_merge_does_not_reuse_ids_of_stubs() {
    let mut d = doc(vec![
        el(0, ElementKind::Svg, "", vec![]),
        el(1, ElementKind::LinearGradient, "lg1", vec![]),
        stop(2, "0"),
        el(1, ElementKind::LinearGradient, "lg2", vec![]),
        stop(2, "0"),
    ]);
    assert_eq!(gen_id(&d, "lg"), "lg3");
    assert!(regroup_gradient_stops(&mut d));
    assert_eq!(d.element(1).id, "lg3");
    assert_eq!(d.element(4).id, "lg2");
    assert_eq!(gen_id(&d, "lg"), "lg4");
}

#[test]
fn keep_1() {
    let elems = vec![
        el(0, ElementKind::Svg, "", vec![]),
        el(1, ElementKind::Defs, "", vec![]),
        el(2, ElementKind::LinearGradient, "", vec![]),
        el(2, ElementKind::Rect, "", vec![]),
    ];
    let mut d = doc(elems.clone());
    assert!(!ungroup_defs(&mut d));
    assert_eq!(d.elements(), &elems);
}

#[test]
fn ungroup_keeps_container_with_an_unreferenced_child() {
    let elems = vec![
        el(0, ElementKind::Svg, "", vec![]),
        el(1, ElementKind::Defs, "", vec![]),
        el(2, ElementKind::LinearGradient, "lg1", vec![]),
        el(2, ElementKind::LinearGradient, "lg2", vec![]),
        el(1, ElementKind::Rect, "", vec![link(AttrKind::Fill, "lg1")]),
    ];
    let mut d = doc(elems.clone());
    assert!(!ungroup_defs(&mut d));
    assert_eq!(d.elements(), &elems);
}

#[test]
fn ungroup_hoists_a_referenced_child() {
    let mut d = doc(vec![
        el(0, ElementKind::Svg, "", vec![]),
        el(1, ElementKind::Defs, "", vec![]),
        el(2, ElementKind::LinearGradient, "lg1", vec![text(AttrKind::X1, "5")]),
        el(3, ElementKind::Stop, "", vec![]),
        el(1, ElementKind::Rect, "", vec![link(AttrKind::Fill, "lg1")]),
    ]);
    assert!(ungroup_defs(&mut d));
    assert_eq!(
        d.elements(),
        &vec![
            el(0, ElementKind::Svg, "", vec![]),
            el(1, ElementKind::LinearGradient, "lg1", vec![text(AttrKind::X1, "5")]),
            el(2, ElementKind::Stop, "", vec![]),
            el(1, ElementKind::Rect, "", vec![link(AttrKind::Fill, "lg1")]),
        ]
    );
}

#[test]
fn ungroup_removes_two_containers() {
    let mut d = doc(vec![
        el(0, ElementKind::Svg, "", vec![]),
        el(1, ElementKind::Defs, "", vec![]),
        el(2, ElementKind::LinearGradient, "a", vec![]),
        el(1, ElementKind::Defs, "", vec![]),
        el(2, ElementKind::LinearGradient, "b", vec![]),
        el(1, ElementKind::Rect, "", vec![link(AttrKind::Fill, "a"), link(AttrKind::Stroke, "b")]),
    ]);
    assert!(ungroup_defs(&mut d));
    assert_eq!(
        d.elements(),
        &vec![
            el(0, ElementKind::Svg, "", vec![]),
            el(1, ElementKind::LinearGradient, "a", vec![]),
            el(1, ElementKind::LinearGradient, "b", vec![]),
            el(
                1,
                ElementKind::Rect,
                "",
                vec![link(AttrKind::Fill, "a"), link(AttrKind::Stroke, "b")]
            ),
        ]
    );
}

#[test]
fn ungroup_hoists_two_referenced_children() {
    let mut d = doc(vec![
        el(0, ElementKind::Svg, "", vec![]),
        el(1, ElementKind::Defs, "", vec![]),
        el(2, ElementKind::LinearGradient, "a", vec![]),
        el(2, ElementKind::RadialGradient, "b", vec![]),
        el(1, ElementKind::Rect, "", vec![link(AttrKind::Fill, "a"), link(AttrKind::Stroke, "b")]),
    ]);
    assert!(ungroup_defs(&mut d));
    assert_eq!(
        d.elements(),
        &vec![
            el(0, ElementKind::Svg, "", vec![]),
            el(1, ElementKind::LinearGradient, "a", vec![]),
            el(1, ElementKind::RadialGradient, "b", vec![]),
            el(
                1,
                ElementKind::Rect,
                "",
                vec![link(AttrKind::Fill, "a"), link(AttrKind::Stroke, "b")]
            ),
        ]
    );
}

#[test]
fn ungroup_removes_empty_container_and_links_to_it() {
    let mut d = doc(vec![
        el(0, ElementKind::Svg, "", vec![]),
        el(1, ElementKind::Defs, "d", vec![]),
        el(1, ElementKind::Use, "", vec![link(AttrKind::Href, "d"), text(AttrKind::X1, "1")]),
    ]);
    assert!(ungroup_defs(&mut d));
    assert_eq!(
        d.elements(),
        &vec![
            el(0, ElementKind::Svg, "", vec![]),
            el(1, ElementKind::Use, "", vec![text(AttrKind::X1, "1")]),
        ]
    );
}

#[test]
fn ungroup_looks_at_direct_children_only() {
    let mut d = doc(vec![
        el(0, ElementKind::Svg, "", vec![]),
        el(1, ElementKind::Defs, "", vec![]),
        el(2, ElementKind::Group, "g", vec![]),
        el(3, ElementKind::Rect, "", vec![]),
        el(1, ElementKind::Use, "", vec![link(AttrKind::Href, "g")]),
    ]);
    assert!(ungroup_defs(&mut d));
    assert_eq!(
        d.elements(),
        &vec![
            el(0, ElementKind::Svg, "", vec![]),
            el(1, ElementKind::Group, "g", vec![]),
            el(2, ElementKind::Rect, "", vec![]),
            el(1, ElementKind::Use, "", vec![link(AttrKind::Href, "g")]),
        ]
    );
}

#[test]
fn ungroup_visits_hoisted_containers() {
    let mut d = doc(vec![
        el(0, ElementKind::Svg, "", vec![]),
        el(1, ElementKind::Defs, "", vec![]),
        el(2, ElementKind::Defs, "inner", vec![]),
        el(3, ElementKind::LinearGradient, "a", vec![]),
        el(1, ElementKind::Use, "", vec![link(AttrKind::Href, "inner"), link(AttrKind::Fill, "a")]),
    ]);
    assert!(ungroup_defs(&mut d));
    assert_eq!(
        d.elements(),
        &vec![
            el(0, ElementKind::Svg, "", vec![]),
            el(1, ElementKind::LinearGradient, "a", vec![]),
            el(1, ElementKind::Use, "", vec![link(AttrKind::Fill, "a")]),
        ]
    );
}

#[test]
fn ungroup_twice_changes_nothing_more() {
    let mut d = doc(vec![
        el(0, ElementKind::Svg, "", vec![]),
        el(1, ElementKind::Defs, "", vec![]),
        el(2, ElementKind::LinearGradient, "a", vec![]),
        el(1, ElementKind::Defs, "", vec![]),
        el(2, ElementKind::LinearGradient, "b", vec![]),
        el(1, ElementKind::Rect, "", vec![link(AttrKind::Fill, "a")]),
    ]);
    assert!(ungroup_defs(&mut d));
    let once = d.elements().clone();
    assert!(!ungroup_defs(&mut d));
    assert_eq!(d.elements(), &once);
}

#[test]
fn from_elements_rejects_bad_nesting() {
    assert_eq!(
        Document::from_elements(vec![el(1, ElementKind::Svg, "", vec![])]).err(),
        Some(Error::Validation)
    );
    assert_eq!(
        Document::from_elements(vec![
            el(0, ElementKind::Svg, "", vec![]),
            el(2, ElementKind::Rect, "", vec![]),
        ])
        .err(),
        Some(Error::Validation)
    );
}

#[test]
fn from_elements_rejects_duplicate_ids() {
    assert_eq!(
        Document::from_elements(vec![
            el(0, ElementKind::Svg, "a", vec![]),
            el(1, ElementKind::Rect, "", vec![]),
            el(1, ElementKind::Rect, "a", vec![]),
        ])
        .err(),
        Some(Error::Validation)
    );
}

#[test]
fn from_elements_rejects_dangling_links() {
    assert_eq!(
        Document::from_elements(vec![
            el(0, ElementKind::Svg, "a", vec![]),
            el(1, ElementKind::Rect, "", vec![link(AttrKind::Fill, "b")]),
        ])
        .err(),
        Some(Error::Validation)
    );
    assert_eq!(
        Document::from_elements(vec![
            el(0, ElementKind::Svg, "", vec![]),
            el(1, ElementKind::Rect, "", vec![link(AttrKind::Fill, "")]),
        ])
        .err(),
        Some(Error::Validation)
    );
}

#[test]
fn from_elements_accepts_forests_and_repeated_empty_ids() {
    let d = doc(vec![
        el(0, ElementKind::Other(1), "", vec![]),
        el(0, ElementKind::Svg, "", vec![]),
        el(1, ElementKind::Group, "g", vec![]),
        el(2, ElementKind::Rect, "", vec![link(AttrKind::Fill, "g")]),
        el(1, ElementKind::Rect, "", vec![]),
    ]);
    assert_eq!(d.len(), 5);
    assert!(d.has_svg_root());
    assert!(d.has_children(2));
    assert!(!d.has_children(3));
    assert_eq!(d.subtree_end(1), 5);
    assert_eq!(d.subtree_end(2), 4);
    assert!(d.is_referenced(2));
    assert!(!d.is_referenced(3));
    assert!(d.has_id(&"g".to_string()));
    assert!(!d.has_id(&"h".to_string()));
}

#[test]
fn set_link_attribute_replaces_the_attribute_of_that_kind() {
    let mut d = doc(vec![
        el(0, ElementKind::Svg, "", vec![]),
        el(1, ElementKind::LinearGradient, "a", vec![]),
        el(1, ElementKind::LinearGradient, "b", vec![]),
        el(
            1,
            ElementKind::Rect,
            "r",
            vec![text(AttrKind::Fill, "red"), text(AttrKind::X1, "1"), link(AttrKind::Fill, "a")],
        ),
    ]);
    assert_eq!(d.set_link_attribute(3, AttrKind::Fill, 2), Ok(()));
    assert_eq!(
        d.element(3),
        &el(1, ElementKind::Rect, "r", vec![text(AttrKind::X1, "1"), link(AttrKind::Fill, "b")])
    );
    assert!(!d.is_referenced(1));
    assert!(d.is_referenced(2));
}

#[test]
fn set_link_attribute_refuses_targets_that_cannot_be_referenced() {
    let elems = vec![
        el(0, ElementKind::Svg, "", vec![]),
        el(1, ElementKind::LinearGradient, "a", vec![link(AttrKind::Href, "b")]),
        el(1, ElementKind::LinearGradient, "b", vec![]),
        el(1, ElementKind::Rect, "", vec![]),
    ];
    let mut d = doc(elems.clone());
    assert_eq!(d.set_link_attribute(1, AttrKind::Fill, 3), Err(Error::Link));
    assert_eq!(d.set_link_attribute(1, AttrKind::Fill, 1), Err(Error::Link));
    assert_eq!(d.set_link_attribute(2, AttrKind::Href, 1), Err(Error::Link));
    assert_eq!(d.elements(), &elems);
    assert_eq!(d.set_link_attribute(3, AttrKind::Fill, 1), Ok(()));
}

#[test]
fn remove_subtree_takes_descendants_and_links_along() {
    let mut d = doc(vec![
        el(0, ElementKind::Svg, "", vec![]),
        el(1, ElementKind::Group, "g", vec![]),
        el(2, ElementKind::Rect, "r", vec![]),
        el(1, ElementKind::Use, "u", vec![link(AttrKind::Href, "r"), link(AttrKind::Fill, "u2")]),
        el(1, ElementKind::Use, "u2", vec![link(AttrKind::Href, "g")]),
    ]);
    d.remove_subtree(1);
    assert_eq!(
        d.elements(),
        &vec![
            el(0, ElementKind::Svg, "", vec![]),
            el(1, ElementKind::Use, "u", vec![link(AttrKind::Fill, "u2")]),
            el(1, ElementKind::Use, "u2", vec![]),
        ]
    );
}

#[test]
fn merge_duplicates_compares_attributes_as_a_set() {
    let mut d = doc(vec![
        el(0, ElementKind::Svg, "", vec![]),
        el(
            1,
            ElementKind::LinearGradient,
            "a",
            vec![text(AttrKind::X1, "1"), text(AttrKind::Y1, "2")],
        ),
        stop(2, "0"),
        el(
            1,
            ElementKind::LinearGradient,
            "b",
            vec![text(AttrKind::Y1, "2"), text(AttrKind::X1, "1")],
        ),
        stop(2, "0"),
        el(1, ElementKind::LinearGradient, "c", vec![text(AttrKind::X1, "1")]),
        stop(2, "0"),
    ]);
    assert!(merge_duplicates(&mut d, ElementKind::LinearGradient));
    assert_eq!(d.len(), 7);
    assert_eq!(d.element(1), &el(1, ElementKind::LinearGradient, "lg1", vec![]));
    assert_eq!(
        d.element(4),
        &el(
            1,
            ElementKind::LinearGradient,
            "b",
            vec![text(AttrKind::Y1, "2"), text(AttrKind::X1, "1"), link(AttrKind::Href, "lg1")]
        )
    );
    assert_eq!(d.element(5), &el(1, ElementKind::LinearGradient, "c", vec![text(AttrKind::X1, "1")]));
}

#[test]
fn regroup_compares_stops_in_order() {
    let elems = vec![
        el(0, ElementKind::Svg, "", vec![]),
        el(1, ElementKind::LinearGradient, "a", vec![]),
        stop(2, "0"),
        stop(2, "1"),
        el(1, ElementKind::LinearGradient, "b", vec![]),
        stop(2, "1"),
        stop(2, "0"),
        el(1, ElementKind::LinearGradient, "c", vec![]),
        stop(2, "0"),
        el(1, ElementKind::LinearGradient, "e", vec![]),
        stop(2, "0"),
        stop(3, "1"),
    ];
    let mut d = doc(elems.clone());
    assert!(!regroup_gradient_stops(&mut d));
    assert_eq!(d.elements(), &elems);
}

#[test]
fn regroup_merges_three_and_leaves_a_nested_candidate() {
    let mut d = doc(vec![
        el(0, ElementKind::Svg, "", vec![]),
        el(1, ElementKind::LinearGradient, "a", vec![]),
        stop(2, "0"),
        el(1, ElementKind::Group, "", vec![]),
        el(2, ElementKind::RadialGradient, "b", vec![]),
        stop(3, "0"),
        el(1, ElementKind::LinearGradient, "c", vec![]),
        stop(2, "0"),
    ]);
    assert!(regroup_gradient_stops(&mut d));
    assert_eq!(
        d.elements(),
        &vec![
            el(0, ElementKind::Svg, "", vec![]),
            el(1, ElementKind::LinearGradient, "lg1", vec![]),
            stop(2, "0"),
            el(1, ElementKind::LinearGradient, "a", vec![link(AttrKind::Href, "lg1")]),
            el(1, ElementKind::Group, "", vec![]),
            el(2, ElementKind::RadialGradient, "b", vec![link(AttrKind::Href, "lg1")]),
            el(1, ElementKind::LinearGradient, "c", vec![link(AttrKind::Href, "lg1")]),
        ]
    );
}

#[test]
fn ungroup_1() {
    let elems = vec![
        el(0, ElementKind::Svg, "", vec![]),
        el(1, ElementKind::Defs, "", vec![]),
        el(2, ElementKind::LinearGradient, "", vec![]),
    ];
    let mut d = doc(elems.clone());
    assert!(!ungroup_defs(&mut d));
    assert_eq!(d.elements(), &elems);
}

#[test]
fn ungroup_2() {
    let elems = vec![
        el(0, ElementKind::Svg, "", vec![]),
        el(1, ElementKind::Defs, "", vec![]),
        el(2, ElementKind::LinearGradient, "", vec![]),
        el(1, ElementKind::Defs, "", vec![]),
        el(2, ElementKind::LinearGradient, "", vec![]),
    ];
    let mut d = doc(elems.clone());
    assert!(!ungroup_defs(&mut d));
    assert_eq!(d.elements(), &elems);
}

#[test]
fn ungroup_3() {
    let elems = vec![
        el(0, ElementKind::Svg, "", vec![]),
        el(1, ElementKind::Defs, "", vec![]),
        el(2, ElementKind::LinearGradient, "", vec![]),
        el(2, ElementKind::RadialGradient, "", vec![]),
    ];
    let mut d = doc(elems.clone());
    assert!(!ungroup_defs(&mut d));
    assert_eq!(d.elements(), &elems);
}
