use svgcleaner::document::Document;
use svgcleaner::element::{AttrKind, Attribute, Element, ElementKind};
use svgcleaner::flatten::ungroup_defs;
use svgcleaner::merge::{merge_duplicates, regroup_gradient_stops};
use svgcleaner::pipeline::{clean_doc, plan, Options, Pass};

fn text(kind: AttrKind, value: &str) -> Attribute {
    Attribute { kind, is_link: false, value: value.to_string() }
}

fn link(kind: AttrKind, target: &str) -> Attribute {
    Attribute { kind, is_link: true, value: target.to_string() }
}

fn el(depth: usize, kind: ElementKind, id: &str, attrs: Vec<Attribute>) -> Element {
    Element { depth, kind, id: id.to_string(), attrs }
}

fn busy() -> Vec<Element> {
    vec![
        el(0, ElementKind::Svg, "root", vec![]),
        el(1, ElementKind::Defs, "d", vec![]),
        el(2, ElementKind::LinearGradient, "lg1", vec![text(AttrKind::X1, "1")]),
        el(3, ElementKind::Stop, "s1", vec![text(AttrKind::Offset, "0")]),
        el(2, ElementKind::RadialGradient, "lg2", vec![text(AttrKind::R, "2")]),
        el(3, ElementKind::Stop, "s2", vec![text(AttrKind::Offset, "0")]),
        el(2, ElementKind::LinearGradient, "lg4", vec![text(AttrKind::X1, "1")]),
        el(3, ElementKind::Stop, "", vec![text(AttrKind::Offset, "0")]),
        el(1, ElementKind::Group, "g", vec![link(AttrKind::Fill, "d")]),
        el(2, ElementKind::Defs, "", vec![]),
        el(3, ElementKind::Filter, "f", vec![]),
        el(4, ElementKind::FeGaussianBlur, "", vec![]),
        el(
            2,
            ElementKind::Rect,
            "",
            vec![
                link(AttrKind::Fill, "lg1"),
                link(AttrKind::Stroke, "lg2"),
                link(AttrKind::Other(7), "f"),
                link(AttrKind::Other(8), "s2"),
            ],
        ),
        el(2, ElementKind::Use, "", vec![link(AttrKind::Href, "lg4")]),
    ]
}

/// Which elements are drawn: roots, targets of links, and children of
/// drawn elements that are no definition containers.
fn rendered(elems: &[Element]) -> Vec<bool> {
    let mut out: Vec<bool> = Vec::new();
    for (i, e) in elems.iter().enumerate() {
        let referenced = !e.id.is_empty()
            && elems.iter().any(|x| x.attrs.iter().any(|a| a.is_link && a.value == e.id));
        let parent = (0..i).rev().find(|&p| elems[p].depth < e.depth);
        let through_parent = match parent {
            Some(p) => elems[p].kind != ElementKind::Defs && out[p],
            None => false,
        };
        out.push(e.depth == 0 || referenced || through_parent);
    }
    out
}

#[test]
fn passes_keep_ids_unique_and_links_resolved() {
    let mut d = Document::from_elements(busy()).unwrap();
    merge_duplicates(&mut d, ElementKind::LinearGradient);
    assert!(Document::from_elements(d.elements().clone()).is_ok());
    regroup_gradient_stops(&mut d);
    assert!(Document::from_elements(d.elements().clone()).is_ok());
    ungroup_defs(&mut d);
    assert!(Document::from_elements(d.elements().clone()).is_ok());

    let mut all = Options::none();
    all.remove_dupl_linear_gradients = true;
    all.remove_dupl_radial_gradients = true;
    all.remove_dupl_fe_gaussian_blur = true;
    all.regroup_gradient_stops = true;
    all.ungroup_defs = true;
    let mut c = Document::from_elements(busy()).unwrap();
    assert_eq!(clean_doc(&mut c, &all), Ok(()));
    assert!(Document::from_elements(c.elements().clone()).is_ok());
}

#[test]
fn flattening_keeps_what_is_rendered() {
    let before = vec![
        el(0, ElementKind::Svg, "", vec![]),
        el(1, ElementKind::Defs, "", vec![]),
        el(2, ElementKind::LinearGradient, "a", vec![]),
        el(3, ElementKind::Stop, "", vec![]),
        el(2, ElementKind::Group, "g", vec![]),
        el(3, ElementKind::Defs, "", vec![]),
        el(4, ElementKind::Rect, "", vec![]),
        el(1, ElementKind::Rect, "", vec![link(AttrKind::Fill, "a"), link(AttrKind::Stroke, "g")]),
    ];
    let mut d = Document::from_elements(before.clone()).unwrap();
    assert!(ungroup_defs(&mut d));
    let after = d.elements().clone();
    assert_eq!(after.len(), before.len() - 1);
    let mut was = rendered(&before);
    was.remove(1);
    assert_eq!(rendered(&after), was);
    assert_eq!(was, vec![true, true, true, true, true, false, true]);
}

#[test]
fn flattening_twice_differs_where_containers_are_nested() {
    let mut d = Document::from_elements(vec![
        el(0, ElementKind::Svg, "", vec![]),
        el(1, ElementKind::Defs, "", vec![]),
        el(2, ElementKind::Defs, "", vec![]),
        el(3, ElementKind::LinearGradient, "a", vec![]),
        el(1, ElementKind::Rect, "", vec![link(AttrKind::Fill, "a")]),
    ])
    .unwrap();
    assert!(ungroup_defs(&mut d));
    assert_eq!(
        d.elements(),
        &vec![
            el(0, ElementKind::Svg, "", vec![]),
            el(1, ElementKind::Defs, "", vec![]),
            el(2, ElementKind::LinearGradient, "a", vec![]),
            el(1, ElementKind::Rect, "", vec![link(AttrKind::Fill, "a")]),
        ]
    );
    assert!(ungroup_defs(&mut d));
    assert_eq!(d.len(), 3);
}

#[test]
fn regrouping_twice_differs_where_a_link_points_into_a_join() {
    let stop = |id: &str, attrs: Vec<Attribute>| el(2, ElementKind::Stop, id, attrs);
    let mut d = Document::from_elements(vec![
        el(0, ElementKind::Svg, "", vec![]),
        el(1, ElementKind::LinearGradient, "x1", vec![]),
        stop("", vec![link(AttrKind::Fill, "s9")]),
        el(1, ElementKind::LinearGradient, "x2", vec![]),
        stop("", vec![]),
        el(1, ElementKind::LinearGradient, "h", vec![]),
        stop("", vec![text(AttrKind::Offset, "1")]),
        el(1, ElementKind::LinearGradient, "j", vec![]),
        stop("s9", vec![text(AttrKind::Offset, "1")]),
    ])
    .unwrap();
    assert!(regroup_gradient_stops(&mut d));
    assert_eq!(d.element(2), &stop("", vec![]));
    assert_eq!(d.len(), 9);
    assert!(regroup_gradient_stops(&mut d));
    assert_eq!(d.element(1).id, "lg2");
}

#[test]
fn merging_twice_differs_where_a_shared_element_equals_a_bystander() {
    let mut d = Document::from_elements(vec![
        el(0, ElementKind::Svg, "", vec![]),
        el(1, ElementKind::LinearGradient, "g1", vec![]),
        el(2, ElementKind::Stop, "", vec![]),
        el(1, ElementKind::LinearGradient, "g2", vec![text(AttrKind::X1, "1")]),
        el(2, ElementKind::Stop, "", vec![]),
        el(1, ElementKind::LinearGradient, "g3", vec![text(AttrKind::X1, "1")]),
        el(2, ElementKind::Stop, "", vec![]),
    ])
    .unwrap();
    assert!(merge_duplicates(&mut d, ElementKind::LinearGradient));
    assert_eq!(d.element(3), &el(1, ElementKind::LinearGradient, "lg1", vec![]));
    assert!(merge_duplicates(&mut d, ElementKind::LinearGradient));
    assert_eq!(d.element(1), &el(1, ElementKind::LinearGradient, "lg2", vec![]));
}

#[test]
fn plan_runs_definitions_before_shapes_and_attributes_before_fixups() {
    let mut o = Options::none();
    o.regroup_gradient_stops = true;
    o.apply_transform_to_gradients = true;
    o.convert_shapes = true;
    o.remove_default_attributes = true;
    o.trim_ids = true;
    o.join_style_attributes = true;
    assert_eq!(
        plan(&o),
        vec![
            Pass::ResolveGradientAttributes,
            Pass::ResolveInherit,
            Pass::FixInvalidAttributes,
            Pass::GroupDefs,
            Pass::ApplyTransformToGradients,
            Pass::RegroupGradientStops,
            Pass::ApplyTransformToGradients,
            Pass::RegroupGradientStops,
            Pass::ConvertShapesToPaths,
            Pass::RemoveDefaultAttributes,
            Pass::TrimIds,
            Pass::RemoveEmptyDefs,
            Pass::FixXmlnsAttribute,
            Pass::JoinStyleAttributes,
        ]
    );
}

#[test]
fn options_none_switches_everything_off() {
    assert_eq!(plan(&Options::none()).len(), 6);
    let mut d = Document::from_elements(busy()).unwrap();
    assert_eq!(clean_doc(&mut d, &Options::none()), Ok(()));
    assert_eq!(d.elements(), &busy());
}

#[test]
fn merging_twice_changes_nothing_more_where_attributes_follow_content() {
    let mut d = Document::from_elements(vec![
        el(0, ElementKind::Svg, "", vec![]),
        el(1, ElementKind::RadialGradient, "a", vec![text(AttrKind::R, "1")]),
        el(2, ElementKind::Stop, "", vec![text(AttrKind::Offset, "0")]),
        el(1, ElementKind::RadialGradient, "b", vec![text(AttrKind::R, "2")]),
        el(2, ElementKind::Stop, "", vec![text(AttrKind::Offset, "1")]),
        el(1, ElementKind::RadialGradient, "c", vec![text(AttrKind::R, "1")]),
        el(2, ElementKind::Stop, "", vec![text(AttrKind::Offset, "0")]),
        el(1, ElementKind::RadialGradient, "e", vec![text(AttrKind::R, "2")]),
        el(2, ElementKind::Stop, "", vec![text(AttrKind::Offset, "1")]),
    ])
    .unwrap();
    assert!(merge_duplicates(&mut d, ElementKind::RadialGradient));
    let once = d.elements().clone();
    assert_eq!(once.len(), 9);
    assert_eq!(once[1].id, "rg1");
    assert_eq!(once[4].id, "rg2");
    assert!(!merge_duplicates(&mut d, ElementKind::RadialGradient));
    assert_eq!(d.elements(), &once);
}

#[test]
fn flattening_changes_what_is_rendered_where_a_container_holds_the_only_link() {
    let before = vec![
        el(0, ElementKind::Svg, "", vec![]),
        el(1, ElementKind::Defs, "", vec![]),
        el(2, ElementKind::Rect, "x", vec![]),
        el(2, ElementKind::Rect, "", vec![]),
        el(1, ElementKind::Defs, "", vec![link(AttrKind::Href, "x")]),
    ];
    let mut d = Document::from_elements(before.clone()).unwrap();
    assert!(ungroup_defs(&mut d));
    let after = d.elements().clone();
    assert_eq!(after, before[..4].to_vec());
    assert_eq!(rendered(&before), vec![true, true, true, false, true]);
    assert_eq!(rendered(&after), vec![true, true, false, false]);
}

#[test]
fn flattening_keeps_a_container_with_an_unreferenced_child_in_place() {
    let mut d = Document::from_elements(vec![
        el(0, ElementKind::Svg, "", vec![]),
        el(1, ElementKind::Defs, "gone", vec![]),
        el(1, ElementKind::Defs, "kept", vec![text(AttrKind::X1, "1"), link(AttrKind::Fill, "gone")]),
        el(2, ElementKind::LinearGradient, "a", vec![]),
        el(2, ElementKind::Rect, "", vec![]),
        el(1, ElementKind::Rect, "", vec![link(AttrKind::Fill, "a")]),
    ])
    .unwrap();
    assert!(ungroup_defs(&mut d));
    assert_eq!(
        d.elements(),
        &vec![
            el(0, ElementKind::Svg, "", vec![]),
            el(1, ElementKind::Defs, "kept", vec![text(AttrKind::X1, "1")]),
            el(2, ElementKind::LinearGradient, "a", vec![]),
            el(2, ElementKind::Rect, "", vec![]),
            el(1, ElementKind::Rect, "", vec![link(AttrKind::Fill, "a")]),
        ]
    );
}
