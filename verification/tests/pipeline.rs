use svgcleaner::document::Document;
use svgcleaner::element::{AttrKind, Attribute, Element, ElementKind};
use svgcleaner::error::Error;
use svgcleaner::pipeline::{clean_doc, plan, run_pass, Options, Pass};

fn options(on: bool) -> Options {
    Options {
        remove_title: on,
        remove_desc: on,
        remove_metadata: on,
        remove_unused_defs: on,
        remove_invalid_stops: on,
        apply_transform_to_gradients: on,
        remove_dupl_linear_gradients: on,
        remove_dupl_radial_gradients: on,
        remove_dupl_fe_gaussian_blur: on,
        merge_gradients: on,
        apply_transform_to_shapes: on,
        convert_shapes: on,
        paths_to_relative: on,
        remove_invisible_elements: on,
        regroup_gradient_stops: on,
        ungroup_groups: on,
        resolve_use: on,
        remove_default_attributes: on,
        remove_text_attributes: on,
        remove_needless_attributes: on,
        remove_gradient_attributes: on,
        remove_unused_coordinates: on,
        group_by_style: on,
        remove_unreferenced_ids: on,
        trim_ids: on,
        remove_version: on,
        ungroup_defs: on,
        remove_xmlns_xlink_attribute: on,
        join_style_attributes: on,
    }
}

fn el(depth: usize, kind: ElementKind, id: &str, attrs: Vec<Attribute>) -> Element {
    Element { depth, kind, id: id.to_string(), attrs }
}

fn href(target: &str) -> Attribute {
    Attribute { kind: AttrKind::Href, is_link: true, value: target.to_string() }
}

fn sample() -> Vec<Element> {
    vec![
        el(0, ElementKind::Svg, "", vec![]),
        el(1, ElementKind::Defs, "", vec![]),
        el(2, ElementKind::LinearGradient, "a", vec![]),
        el(3, ElementKind::Stop, "", vec![]),
        el(2, ElementKind::LinearGradient, "b", vec![]),
        el(3, ElementKind::Stop, "", vec![]),
        el(1, ElementKind::Use, "", vec![href("a")]),
        el(1, ElementKind::Use, "", vec![href("b")]),
    ]
}

#[test]
fn plan_with_nothing_switched_on() {
    assert_eq!(
        plan(&options(false)),
        vec![
            Pass::ResolveGradientAttributes,
            Pass::ResolveInherit,
            Pass::FixInvalidAttributes,
            Pass::GroupDefs,
            Pass::RemoveEmptyDefs,
            Pass::FixXmlnsAttribute,
        ]
    );
}

#[test]
fn plan_with_everything_switched_on() {
    assert_eq!(
        plan(&options(true)),
        vec![
            Pass::ResolveGradientAttributes,
            Pass::ResolveInherit,
            Pass::FixInvalidAttributes,
            Pass::GroupDefs,
            Pass::RemoveTitle,
            Pass::RemoveDesc,
            Pass::RemoveMetadata,
            Pass::RemoveUnusedDefs,
            Pass::RemoveInvalidStops,
            Pass::ApplyTransformToGradients,
            Pass::RemoveDuplLinearGradients,
            Pass::RemoveDuplRadialGradients,
            Pass::RemoveDuplFeGaussianBlur,
            Pass::RegroupGradientStops,
            Pass::MergeGradients,
            Pass::ApplyTransformToGradients,
            Pass::RegroupGradientStops,
            Pass::ApplyTransformToShapes,
            Pass::ConvertShapesToPaths,
            Pass::ProcessPaths,
            Pass::RemoveInvisibleElements,
            Pass::UngroupGroups,
            Pass::ResolveUse,
            Pass::RemoveDefaultAttributes,
            Pass::RemoveTextAttributes,
            Pass::RemoveNeedlessAttributes,
            Pass::RemoveGradientAttributes,
            Pass::RemoveUnusedCoordinates,
            Pass::GroupByStyle,
            Pass::RemoveUnreferencedIds,
            Pass::TrimIds,
            Pass::RemoveVersion,
            Pass::UngroupDefs,
            Pass::RemoveEmptyDefs,
            Pass::FixXmlnsAttribute,
            Pass::JoinStyleAttributes,
        ]
    );
}

#[test]
fn plan_gates_each_pass_by_its_option() {
    let mut o = options(false);
    o.ungroup_defs = true;
    o.join_style_attributes = true;
    o.remove_desc = true;
    assert_eq!(
        plan(&o),
        vec![
            Pass::ResolveGradientAttributes,
            Pass::ResolveInherit,
            Pass::FixInvalidAttributes,
            Pass::GroupDefs,
            Pass::RemoveDesc,
            Pass::UngroupDefs,
            Pass::RemoveEmptyDefs,
            Pass::FixXmlnsAttribute,
            Pass::JoinStyleAttributes,
        ]
    );
}

#[test]
fn clean_doc_without_svg_root_changes_nothing() {
    let elems = vec![
        el(0, ElementKind::Group, "", vec![]),
        el(1, ElementKind::Svg, "", vec![]),
        el(1, ElementKind::Defs, "", vec![]),
    ];
    let mut d = Document::from_elements(elems.clone()).unwrap();
    assert_eq!(clean_doc(&mut d, &options(true)), Err(Error::Validation));
    assert_eq!(d.elements(), &elems);

    let mut empty = Document::new();
    assert_eq!(clean_doc(&mut empty, &options(true)), Err(Error::Validation));
    assert_eq!(empty.len(), 0);
}

#[test]
fn clean_doc_with_nothing_switched_on_changes_nothing() {
    let mut d = Document::from_elements(sample()).unwrap();
    assert_eq!(clean_doc(&mut d, &options(false)), Ok(()));
    assert_eq!(d.elements(), &sample());
}

#[test]
fn clean_doc_merges_then_flattens() {
    let mut d = Document::from_elements(sample()).unwrap();
    assert_eq!(clean_doc(&mut d, &options(true)), Ok(()));
    assert_eq!(
        d.elements(),
        &vec![
            el(0, ElementKind::Svg, "", vec![]),
            el(1, ElementKind::LinearGradient, "lg1", vec![]),
            el(2, ElementKind::Stop, "", vec![]),
            el(1, ElementKind::LinearGradient, "a", vec![href("lg1")]),
            el(1, ElementKind::LinearGradient, "b", vec![href("lg1")]),
            el(1, ElementKind::Use, "", vec![href("a")]),
            el(1, ElementKind::Use, "", vec![href("b")]),
        ]
    );
}

#[test]
fn clean_doc_keeps_container_when_only_merging() {
    let mut d = Document::from_elements(sample()).unwrap();
    let mut o = options(false);
    o.remove_dupl_linear_gradients = true;
    assert_eq!(clean_doc(&mut d, &o), Ok(()));
    assert_eq!(
        d.elements(),
        &vec![
            el(0, ElementKind::Svg, "", vec![]),
            el(1, ElementKind::Defs, "", vec![]),
            el(2, ElementKind::LinearGradient, "lg1", vec![]),
            el(3, ElementKind::Stop, "", vec![]),
            el(2, ElementKind::LinearGradient, "a", vec![href("lg1")]),
            el(2, ElementKind::LinearGradient, "b", vec![href("lg1")]),
            el(1, ElementKind::Use, "", vec![href("a")]),
            el(1, ElementKind::Use, "", vec![href("b")]),
        ]
    );
}

#[test]
fn clean_doc_is_the_same_on_equal_documents() {
    let mut a = Document::from_elements(sample()).unwrap();
    let mut b = Document::from_elements(sample()).unwrap();
    let mut o = options(false);
    o.regroup_gradient_stops = true;
    o.ungroup_defs = true;
    assert_eq!(clean_doc(&mut a, &o), Ok(()));
    assert_eq!(clean_doc(&mut b, &o), Ok(()));
    assert_eq!(a.elements(), b.elements());
}

#[test]
fn run_pass_leaves_the_callers_passes_alone() {
    let mut d = Document::from_elements(sample()).unwrap();
    assert!(!run_pass(&mut d, Pass::RemoveTitle));
    assert!(!run_pass(&mut d, Pass::JoinStyleAttributes));
    assert_eq!(d.elements(), &sample());
    assert!(run_pass(&mut d, Pass::RegroupGradientStops));
    assert_eq!(d.len(), 8);
    assert_eq!(d.element(2).id, "lg1");
    assert!(run_pass(&mut d, Pass::UngroupDefs));
    assert_eq!(d.len(), 7);
}
