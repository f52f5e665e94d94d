//! The order in which passes run.
//!
//! Cleaning a document is a fixed sequence of passes, each optional one
//! switched by its option.  This library performs the passes that
//! restructure the tree; the others work on single elements and are
//! left to the caller, who learns from [`plan`] when each is due.
use vstd::prelude::*;
use crate::document::Document;
use crate::element::ElementKind;
use crate::error::Error;
use crate::flatten::{flatten, ungroup_defs};
use crate::merge::{merge_duplicates, merged, regroup_gradient_stops, MergeRule};
use crate::tree::{has_svg_root, Tree};

verus! {

/// Which optional passes run.
#[derive(Clone, Copy, Debug, PartialEq, Eq)]
pub struct Options {
    pub remove_title: bool,
    pub remove_desc: bool,
    pub remove_metadata: bool,
    pub remove_unused_defs: bool,
    pub remove_invalid_stops: bool,
    pub apply_transform_to_gradients: bool,
    pub remove_dupl_linear_gradients: bool,
    pub remove_dupl_radial_gradients: bool,
    pub remove_dupl_fe_gaussian_blur: bool,
    pub merge_gradients: bool,
    pub apply_transform_to_shapes: bool,
    pub convert_shapes: bool,
    pub paths_to_relative: bool,
    pub remove_invisible_elements: bool,
    pub regroup_gradient_stops: bool,
    pub ungroup_groups: bool,
    pub resolve_use: bool,
    pub remove_default_attributes: bool,
    pub remove_text_attributes: bool,
    pub remove_needless_attributes: bool,
    pub remove_gradient_attributes: bool,
    pub remove_unused_coordinates: bool,
    pub group_by_style: bool,
    pub remove_unreferenced_ids: bool,
    pub trim_ids: bool,
    pub remove_version: bool,
    pub ungroup_defs: bool,
    /// Not a switch: tells the pass that fixes the namespace attributes,
    /// which always runs, to drop the one for links where it can.
    pub remove_xmlns_xlink_attribute: bool,
    pub join_style_attributes: bool,
}

impl Options {
    /// Every switch of the options is off.
    pub open spec fn all_off(&self) -> bool {
        &&& !self.remove_title
        &&& !self.remove_desc
        &&& !self.remove_metadata
        &&& !self.remove_unused_defs
        &&& !self.remove_invalid_stops
        &&& !self.apply_transform_to_gradients
        &&& !self.remove_dupl_linear_gradients
        &&& !self.remove_dupl_radial_gradients
        &&& !self.remove_dupl_fe_gaussian_blur
        &&& !self.merge_gradients
        &&& !self.apply_transform_to_shapes
        &&& !self.convert_shapes
        &&& !self.paths_to_relative
        &&& !self.remove_invisible_elements
        &&& !self.regroup_gradient_stops
        &&& !self.ungroup_groups
        &&& !self.resolve_use
        &&& !self.remove_default_attributes
        &&& !self.remove_text_attributes
        &&& !self.remove_needless_attributes
        &&& !self.remove_gradient_attributes
        &&& !self.remove_unused_coordinates
        &&& !self.group_by_style
        &&& !self.remove_unreferenced_ids
        &&& !self.trim_ids
        &&& !self.remove_version
        &&& !self.ungroup_defs
        &&& !self.remove_xmlns_xlink_attribute
        &&& !self.join_style_attributes
    }

    /// The options with every switch off: only the passes that always
    /// run are planned.
    pub fn none() -> (o: Options)
        ensures
            o.all_off(),
            planned(o) == prepare_passes() + seq![Pass::RemoveEmptyDefs, Pass::FixXmlnsAttribute],
    {
        let o = Options {
            remove_title: false,
            remove_desc: false,
            remove_metadata: false,
            remove_unused_defs: false,
            remove_invalid_stops: false,
            apply_transform_to_gradients: false,
            remove_dupl_linear_gradients: false,
            remove_dupl_radial_gradients: false,
            remove_dupl_fe_gaussian_blur: false,
            merge_gradients: false,
            apply_transform_to_shapes: false,
            convert_shapes: false,
            paths_to_relative: false,
            remove_invisible_elements: false,
            regroup_gradient_stops: false,
            ungroup_groups: false,
            resolve_use: false,
            remove_default_attributes: false,
            remove_text_attributes: false,
            remove_needless_attributes: false,
            remove_gradient_attributes: false,
            remove_unused_coordinates: false,
            group_by_style: false,
            remove_unreferenced_ids: false,
            trim_ids: false,
            remove_version: false,
            ungroup_defs: false,
            remove_xmlns_xlink_attribute: false,
            join_style_attributes: false,
        };
        assert(element_passes(o) =~= Seq::empty());
        assert(definition_passes(o) =~= Seq::empty());
        assert(shape_passes(o) =~= Seq::empty());
        assert(attribute_passes(o) =~= Seq::empty());
        assert(fixup_passes(o) =~= seq![Pass::RemoveEmptyDefs, Pass::FixXmlnsAttribute]);
        assert(planned(o) =~= prepare_passes() + seq![
            Pass::RemoveEmptyDefs,
            Pass::FixXmlnsAttribute,
        ]);
        o
    }
}

/// One pass of the pipeline.
#[derive(Clone, Copy, Debug, PartialEq, Eq, Structural)]
pub enum Pass {
    ResolveGradientAttributes,
    ResolveInherit,
    FixInvalidAttributes,
    GroupDefs,
    RemoveTitle,
    RemoveDesc,
    RemoveMetadata,
    RemoveUnusedDefs,
    RemoveInvalidStops,
    ApplyTransformToGradients,
    RemoveDuplLinearGradients,
    RemoveDuplRadialGradients,
    RemoveDuplFeGaussianBlur,
    RegroupGradientStops,
    MergeGradients,
    ApplyTransformToShapes,
    ConvertShapesToPaths,
    ProcessPaths,
    RemoveInvisibleElements,
    UngroupGroups,
    ResolveUse,
    RemoveDefaultAttributes,
    RemoveTextAttributes,
    RemoveNeedlessAttributes,
    RemoveGradientAttributes,
    RemoveUnusedCoordinates,
    GroupByStyle,
    RemoveUnreferencedIds,
    TrimIds,
    RemoveVersion,
    UngroupDefs,
    RemoveEmptyDefs,
    FixXmlnsAttribute,
    JoinStyleAttributes,
}

/// The stretch of the pipeline a pass belongs to.  Stretches follow
/// one another in this order.
#[derive(Clone, Copy, Debug, PartialEq, Eq, Structural)]
pub enum Phase {
    /// Normalisation every later pass relies on.
    Prepare,
    /// Removal of whole elements.
    Elements,
    /// Work on definitions: transforms, merging, regrouping.
    Definitions,
    /// Simplification of shapes and groups.
    Shapes,
    /// Stripping and grouping of attributes.
    Attributes,
    /// Fix-ups that cannot break anything.
    Fixups,
    /// The pass that breaks linking.
    Terminal,
}

/// The place of a phase in the order of phases.
pub open spec fn phase_rank(phase: Phase) -> nat {
    match phase {
        Phase::Prepare => 0,
        Phase::Elements => 1,
        Phase::Definitions => 2,
        Phase::Shapes => 3,
        Phase::Attributes => 4,
        Phase::Fixups => 5,
        Phase::Terminal => 6,
    }
}

/// The phase a pass belongs to.
pub open spec fn phase_of(pass: Pass) -> Phase {
    match pass {
        Pass::ResolveGradientAttributes
        | Pass::ResolveInherit
        | Pass::FixInvalidAttributes
        | Pass::GroupDefs => Phase::Prepare,
        Pass::RemoveTitle
        | Pass::RemoveDesc
        | Pass::RemoveMetadata
        | Pass::RemoveUnusedDefs
        | Pass::RemoveInvalidStops => Phase::Elements,
        Pass::ApplyTransformToGradients
        | Pass::RemoveDuplLinearGradients
        | Pass::RemoveDuplRadialGradients
        | Pass::RemoveDuplFeGaussianBlur
        | Pass::RegroupGradientStops
        | Pass::MergeGradients => Phase::Definitions,
        Pass::ApplyTransformToShapes
        | Pass::ConvertShapesToPaths
        | Pass::ProcessPaths
        | Pass::RemoveInvisibleElements
        | Pass::UngroupGroups
        | Pass::ResolveUse => Phase::Shapes,
        Pass::RemoveDefaultAttributes
        | Pass::RemoveTextAttributes
        | Pass::RemoveNeedlessAttributes
        | Pass::RemoveGradientAttributes
        | Pass::RemoveUnusedCoordinates
        | Pass::GroupByStyle => Phase::Attributes,
        Pass::RemoveUnreferencedIds
        | Pass::TrimIds
        | Pass::RemoveVersion
        | Pass::UngroupDefs
        | Pass::RemoveEmptyDefs
        | Pass::FixXmlnsAttribute => Phase::Fixups,
        Pass::JoinStyleAttributes => Phase::Terminal,
    }
}

/// `pass` if it is switched on, nothing otherwise.
pub open spec fn gate(on: bool, pass: Pass) -> Seq<Pass> {
    if on {
        seq![pass]
    } else {
        Seq::empty()
    }
}

/// The passes that always run first.
pub open spec fn prepare_passes() -> Seq<Pass> {
    seq![
        Pass::ResolveGradientAttributes,
        Pass::ResolveInherit,
        Pass::FixInvalidAttributes,
        Pass::GroupDefs,
    ]
}

/// The passes that remove whole elements.
pub open spec fn element_passes(o: Options) -> Seq<Pass> {
    gate(o.remove_title, Pass::RemoveTitle) + gate(o.remove_desc, Pass::RemoveDesc) + gate(
        o.remove_metadata,
        Pass::RemoveMetadata,
    ) + gate(o.remove_unused_defs, Pass::RemoveUnusedDefs) + gate(
        o.remove_invalid_stops,
        Pass::RemoveInvalidStops,
    )
}

/// The passes on definitions.  Transforms are applied before anything
/// is merged, so that equal definitions compare equal; duplicates are
/// merged before stop lists are regrouped; and after the last pass that
/// touches gradients, transforms and regrouping run once more.
pub open spec fn definition_passes(o: Options) -> Seq<Pass> {
    gate(o.apply_transform_to_gradients, Pass::ApplyTransformToGradients) + gate(
        o.remove_dupl_linear_gradients,
        Pass::RemoveDuplLinearGradients,
    ) + gate(o.remove_dupl_radial_gradients, Pass::RemoveDuplRadialGradients) + gate(
        o.remove_dupl_fe_gaussian_blur,
        Pass::RemoveDuplFeGaussianBlur,
    ) + gate(o.regroup_gradient_stops, Pass::RegroupGradientStops) + gate(
        o.merge_gradients,
        Pass::MergeGradients,
    ) + gate(o.apply_transform_to_gradients, Pass::ApplyTransformToGradients) + gate(
        o.regroup_gradient_stops,
        Pass::RegroupGradientStops,
    )
}

/// The passes that simplify shapes and groups.
pub open spec fn shape_passes(o: Options) -> Seq<Pass> {
    gate(o.apply_transform_to_shapes, Pass::ApplyTransformToShapes) + gate(
        o.convert_shapes,
        Pass::ConvertShapesToPaths,
    ) + gate(o.paths_to_relative, Pass::ProcessPaths) + gate(
        o.remove_invisible_elements,
        Pass::RemoveInvisibleElements,
    ) + gate(o.ungroup_groups, Pass::UngroupGroups) + gate(o.resolve_use, Pass::ResolveUse)
}

/// The passes that strip and group attributes.
pub open spec fn attribute_passes(o: Options) -> Seq<Pass> {
    gate(o.remove_default_attributes, Pass::RemoveDefaultAttributes) + gate(
        o.remove_text_attributes,
        Pass::RemoveTextAttributes,
    ) + gate(o.remove_needless_attributes, Pass::RemoveNeedlessAttributes) + gate(
        o.remove_gradient_attributes,
        Pass::RemoveGradientAttributes,
    ) + gate(o.remove_unused_coordinates, Pass::RemoveUnusedCoordinates) + gate(
        o.group_by_style,
        Pass::GroupByStyle,
    )
}

/// The final fix-ups.
pub open spec fn fixup_passes(o: Options) -> Seq<Pass> {
    gate(o.remove_unreferenced_ids, Pass::RemoveUnreferencedIds) + gate(
        o.trim_ids,
        Pass::TrimIds,
    ) + gate(o.remove_version, Pass::RemoveVersion) + gate(o.ungroup_defs, Pass::UngroupDefs)
        + seq![Pass::RemoveEmptyDefs, Pass::FixXmlnsAttribute]
}

/// The passes that run under the options `o` before the one that
/// breaks linking, in their order.
pub open spec fn plan_front(o: Options) -> Seq<Pass> {
    prepare_passes() + element_passes(o) + definition_passes(o) + shape_passes(o)
        + attribute_passes(o) + fixup_passes(o)
}

/// The passes that run under the options `o`, in their order.
pub open spec fn planned(o: Options) -> Seq<Pass> {
    plan_front(o) + gate(o.join_style_attributes, Pass::JoinStyleAttributes)
}

/// Every pass in `s` belongs to `phase`.
pub open spec fn all_in_phase(s: Seq<Pass>, phase: Phase) -> bool {
    forall|i: int| 0 <= i < s.len() ==> phase_of(#[trigger] s[i]) == phase
}

/// The phases of the passes in `s` never go back.
pub open spec fn phases_ascend(s: Seq<Pass>) -> bool {
    forall|i: int, j: int|
        0 <= i < j < s.len() ==> phase_rank(phase_of(#[trigger] s[i])) <= phase_rank(
            phase_of(#[trigger] s[j]),
        )
}

/// The greatest rank among the phases of the passes in `s` is at most
/// that of `phase`.
pub open spec fn not_after(s: Seq<Pass>, phase: Phase) -> bool {
    forall|i: int| 0 <= i < s.len() ==> phase_rank(phase_of(#[trigger] s[i])) <= phase_rank(phase)
}

/// A gate holds passes of its pass's phase only.
proof fn lemma_gate(on: bool, pass: Pass)
    ensures
        all_in_phase(gate(on, pass), phase_of(pass)),
{
}

/// Two lists of passes of one phase make a list of that phase.
proof fn lemma_join_phase(a: Seq<Pass>, b: Seq<Pass>, phase: Phase)
    requires
        all_in_phase(a, phase),
        all_in_phase(b, phase),
    ensures
        all_in_phase(a + b, phase),
{
    assert forall|i: int| 0 <= i < (a + b).len() implies phase_of(#[trigger] (a + b)[i])
        == phase by {
        if i < a.len() {
            assert((a + b)[i] == a[i]);
        } else {
            assert((a + b)[i] == b[i - a.len()]);
        }
    }
}

/// Passes of a later phase may follow passes whose phases ascend.
proof fn lemma_append_phase(acc: Seq<Pass>, part: Seq<Pass>, before: Phase, phase: Phase)
    requires
        phases_ascend(acc),
        not_after(acc, before),
        phase_rank(before) <= phase_rank(phase),
        all_in_phase(part, phase),
    ensures
        phases_ascend(acc + part),
        not_after(acc + part, phase),
{
    let s = acc + part;
    assert forall|i: int| 0 <= i < s.len() implies phase_rank(phase_of(#[trigger] s[i]))
        <= phase_rank(phase) by {
        if i < acc.len() {
            assert(s[i] == acc[i]);
        } else {
            assert(s[i] == part[i - acc.len()]);
        }
    }
    assert forall|i: int, j: int| 0 <= i < j < s.len() implies phase_rank(
        phase_of(#[trigger] s[i]),
    ) <= phase_rank(phase_of(#[trigger] s[j])) by {
        if j < acc.len() {
            assert(s[i] == acc[i] && s[j] == acc[j]);
        } else if i < acc.len() {
            assert(s[i] == acc[i] && s[j] == part[j - acc.len()]);
        } else {
            assert(s[i] == part[i - acc.len()] && s[j] == part[j - acc.len()]);
        }
    }
}

/// The passes that remove elements belong to their phase.
proof fn lemma_element_passes(o: Options)
    ensures
        all_in_phase(element_passes(o), Phase::Elements),
{
    let g1 = gate(o.remove_title, Pass::RemoveTitle);
    let g2 = g1 + gate(o.remove_desc, Pass::RemoveDesc);
    let g3 = g2 + gate(o.remove_metadata, Pass::RemoveMetadata);
    let g4 = g3 + gate(o.remove_unused_defs, Pass::RemoveUnusedDefs);
    lemma_join_phase(g1, gate(o.remove_desc, Pass::RemoveDesc), Phase::Elements);
    lemma_join_phase(g2, gate(o.remove_metadata, Pass::RemoveMetadata), Phase::Elements);
    lemma_join_phase(g3, gate(o.remove_unused_defs, Pass::RemoveUnusedDefs), Phase::Elements);
    lemma_join_phase(g4, gate(o.remove_invalid_stops, Pass::RemoveInvalidStops), Phase::Elements);
}

/// The passes on definitions belong to their phase.
proof fn lemma_definition_passes(o: Options)
    ensures
        all_in_phase(definition_passes(o), Phase::Definitions),
{
    let d1 = gate(o.apply_transform_to_gradients, Pass::ApplyTransformToGradients);
    let d2 = d1 + gate(o.remove_dupl_linear_gradients, Pass::RemoveDuplLinearGradients);
    let d3 = d2 + gate(o.remove_dupl_radial_gradients, Pass::RemoveDuplRadialGradients);
    let d4 = d3 + gate(o.remove_dupl_fe_gaussian_blur, Pass::RemoveDuplFeGaussianBlur);
    let d5 = d4 + gate(o.regroup_gradient_stops, Pass::RegroupGradientStops);
    let d6 = d5 + gate(o.merge_gradients, Pass::MergeGradients);
    let d7 = d6 + gate(o.apply_transform_to_gradients, Pass::ApplyTransformToGradients);
    lemma_join_phase(
        d1,
        gate(o.remove_dupl_linear_gradients, Pass::RemoveDuplLinearGradients),
        Phase::Definitions,
    );
    lemma_join_phase(
        d2,
        gate(o.remove_dupl_radial_gradients, Pass::RemoveDuplRadialGradients),
        Phase::Definitions,
    );
    lemma_join_phase(
        d3,
        gate(o.remove_dupl_fe_gaussian_blur, Pass::RemoveDuplFeGaussianBlur),
        Phase::Definitions,
    );
    lemma_join_phase(
        d4,
        gate(o.regroup_gradient_stops, Pass::RegroupGradientStops),
        Phase::Definitions,
    );
    lemma_join_phase(d5, gate(o.merge_gradients, Pass::MergeGradients), Phase::Definitions);
    lemma_join_phase(
        d6,
        gate(o.apply_transform_to_gradients, Pass::ApplyTransformToGradients),
        Phase::Definitions,
    );
    lemma_join_phase(
        d7,
        gate(o.regroup_gradient_stops, Pass::RegroupGradientStops),
        Phase::Definitions,
    );
}

/// The passes on shapes belong to their phase.
proof fn lemma_shape_passes(o: Options)
    ensures
        all_in_phase(shape_passes(o), Phase::Shapes),
{
    let s1 = gate(o.apply_transform_to_shapes, Pass::ApplyTransformToShapes);
    let s2 = s1 + gate(o.convert_shapes, Pass::ConvertShapesToPaths);
    let s3 = s2 + gate(o.paths_to_relative, Pass::ProcessPaths);
    let s4 = s3 + gate(o.remove_invisible_elements, Pass::RemoveInvisibleElements);
    let s5 = s4 + gate(o.ungroup_groups, Pass::UngroupGroups);
    lemma_join_phase(s1, gate(o.convert_shapes, Pass::ConvertShapesToPaths), Phase::Shapes);
    lemma_join_phase(s2, gate(o.paths_to_relative, Pass::ProcessPaths), Phase::Shapes);
    lemma_join_phase(
        s3,
        gate(o.remove_invisible_elements, Pass::RemoveInvisibleElements),
        Phase::Shapes,
    );
    lemma_join_phase(s4, gate(o.ungroup_groups, Pass::UngroupGroups), Phase::Shapes);
    lemma_join_phase(s5, gate(o.resolve_use, Pass::ResolveUse), Phase::Shapes);
}

/// The passes on attributes belong to their phase.
proof fn lemma_attribute_passes(o: Options)
    ensures
        all_in_phase(attribute_passes(o), Phase::Attributes),
{
    let a1 = gate(o.remove_default_attributes, Pass::RemoveDefaultAttributes);
    let a2 = a1 + gate(o.remove_text_attributes, Pass::RemoveTextAttributes);
    let a3 = a2 + gate(o.remove_needless_attributes, Pass::RemoveNeedlessAttributes);
    let a4 = a3 + gate(o.remove_gradient_attributes, Pass::RemoveGradientAttributes);
    let a5 = a4 + gate(o.remove_unused_coordinates, Pass::RemoveUnusedCoordinates);
    lemma_join_phase(
        a1,
        gate(o.remove_text_attributes, Pass::RemoveTextAttributes),
        Phase::Attributes,
    );
    lemma_join_phase(
        a2,
        gate(o.remove_needless_attributes, Pass::RemoveNeedlessAttributes),
        Phase::Attributes,
    );
    lemma_join_phase(
        a3,
        gate(o.remove_gradient_attributes, Pass::RemoveGradientAttributes),
        Phase::Attributes,
    );
    lemma_join_phase(
        a4,
        gate(o.remove_unused_coordinates, Pass::RemoveUnusedCoordinates),
        Phase::Attributes,
    );
    lemma_join_phase(a5, gate(o.group_by_style, Pass::GroupByStyle), Phase::Attributes);
}

/// The final fix-ups belong to their phase.
proof fn lemma_fixup_passes(o: Options)
    ensures
        all_in_phase(fixup_passes(o), Phase::Fixups),
{
    let f1 = gate(o.remove_unreferenced_ids, Pass::RemoveUnreferencedIds);
    let f2 = f1 + gate(o.trim_ids, Pass::TrimIds);
    let f3 = f2 + gate(o.remove_version, Pass::RemoveVersion);
    let f4 = f3 + gate(o.ungroup_defs, Pass::UngroupDefs);
    lemma_join_phase(f1, gate(o.trim_ids, Pass::TrimIds), Phase::Fixups);
    lemma_join_phase(f2, gate(o.remove_version, Pass::RemoveVersion), Phase::Fixups);
    lemma_join_phase(f3, gate(o.ungroup_defs, Pass::UngroupDefs), Phase::Fixups);
    lemma_join_phase(
        f4,
        seq![Pass::RemoveEmptyDefs, Pass::FixXmlnsAttribute],
        Phase::Fixups,
    );
}

/// Each stretch of the plan holds passes of its own phase only.
pub proof fn lemma_parts_in_phase(o: Options)
    ensures
        all_in_phase(prepare_passes(), Phase::Prepare),
        all_in_phase(element_passes(o), Phase::Elements),
        all_in_phase(definition_passes(o), Phase::Definitions),
        all_in_phase(shape_passes(o), Phase::Shapes),
        all_in_phase(attribute_passes(o), Phase::Attributes),
        all_in_phase(fixup_passes(o), Phase::Fixups),
{
    lemma_element_passes(o);
    lemma_definition_passes(o);
    lemma_shape_passes(o);
    lemma_attribute_passes(o);
    lemma_fixup_passes(o);
}

/// The phases of the passes before the last one ascend and stop at
/// the fix-ups.
proof fn lemma_plan_front(o: Options)
    ensures
        phases_ascend(plan_front(o)),
        not_after(plan_front(o), Phase::Fixups),
{
    lemma_parts_in_phase(o);
    let p0 = prepare_passes();
    let p1 = p0 + element_passes(o);
    let p2 = p1 + definition_passes(o);
    let p3 = p2 + shape_passes(o);
    let p4 = p3 + attribute_passes(o);
    lemma_append_phase(Seq::empty(), p0, Phase::Prepare, Phase::Prepare);
    assert(Seq::<Pass>::empty() + p0 =~= p0);
    lemma_append_phase(p0, element_passes(o), Phase::Prepare, Phase::Elements);
    lemma_append_phase(p1, definition_passes(o), Phase::Elements, Phase::Definitions);
    lemma_append_phase(p2, shape_passes(o), Phase::Definitions, Phase::Shapes);
    lemma_append_phase(p3, attribute_passes(o), Phase::Shapes, Phase::Attributes);
    lemma_append_phase(p4, fixup_passes(o), Phase::Attributes, Phase::Fixups);
}

/// What stands first stays first when more is appended.
proof fn lemma_prefix_kept(acc: Seq<Pass>, part: Seq<Pass>, n: int)
    requires
        0 <= n <= acc.len(),
    ensures
        (acc + part).subrange(0, n) == acc.subrange(0, n),
{
    assert((acc + part).subrange(0, n) =~= acc.subrange(0, n));
}

/// The order of the plan is fixed: whatever the options, normalisation
/// comes first, then the removal of elements, the work on definitions,
/// the simplification of shapes, the stripping of attributes and the
/// final fix-ups, and the pass that breaks linking comes after all of
/// them.
pub proof fn law_plan_phases_ascend(o: Options)
    ensures
        phases_ascend(planned(o)),
{
    lemma_plan_front(o);
    lemma_gate(o.join_style_attributes, Pass::JoinStyleAttributes);
    lemma_append_phase(
        plan_front(o),
        gate(o.join_style_attributes, Pass::JoinStyleAttributes),
        Phase::Fixups,
        Phase::Terminal,
    );
}

/// The plan always starts with the four passes of normalisation.
pub proof fn law_plan_starts_with_normalisation(o: Options)
    ensures
        planned(o).len() >= 4,
        planned(o).subrange(0, 4) == prepare_passes(),
{
    let p0 = prepare_passes();
    let p1 = p0 + element_passes(o);
    let p2 = p1 + definition_passes(o);
    let p3 = p2 + shape_passes(o);
    let p4 = p3 + attribute_passes(o);
    let p5 = p4 + fixup_passes(o);
    assert(p0.len() == 4);
    assert(p0.subrange(0, 4) =~= p0);
    lemma_prefix_kept(p0, element_passes(o), 4);
    lemma_prefix_kept(p1, definition_passes(o), 4);
    lemma_prefix_kept(p2, shape_passes(o), 4);
    lemma_prefix_kept(p3, attribute_passes(o), 4);
    lemma_prefix_kept(p4, fixup_passes(o), 4);
    lemma_prefix_kept(p5, gate(o.join_style_attributes, Pass::JoinStyleAttributes), 4);
}

/// The pass that breaks linking runs exactly if its option is set, and
/// then it is the last pass of the plan.
pub proof fn law_plan_breaks_linking_last(o: Options)
    ensures
        o.join_style_attributes ==> planned(o).last() == Pass::JoinStyleAttributes,
        forall|i: int|
            0 <= i < planned(o).len() && #[trigger] planned(o)[i] == Pass::JoinStyleAttributes
                ==> o.join_style_attributes && i == planned(o).len() - 1,
{
    lemma_plan_front(o);
    let front = plan_front(o);
    let tail = gate(o.join_style_attributes, Pass::JoinStyleAttributes);
    assert forall|i: int|
        0 <= i < planned(o).len() && #[trigger] planned(o)[i]
            == Pass::JoinStyleAttributes implies o.join_style_attributes && i == planned(
        o,
    ).len() - 1 by {
        if i < front.len() {
            assert((front + tail)[i] == front[i]);
            assert(phase_rank(phase_of(front[i])) <= phase_rank(Phase::Fixups));
        }
    }
    if o.join_style_attributes {
        assert((front + tail)[front.len() as int] == tail[0]);
    }
}

/// Adds `pass` to `v` if it is switched on.
fn push_if(v: &mut Vec<Pass>, on: bool, pass: Pass)
    ensures
        final(v)@ == old(v)@ + gate(on, pass),
{
    if on {
        v.push(pass);
    }
    assert(v@ =~= old(v)@ + gate(on, pass));
}

/// The passes that always run first.
fn plan_prepare() -> (v: Vec<Pass>)
    ensures
        v@ == prepare_passes(),
{
    let mut v: Vec<Pass> = Vec::new();
    v.push(Pass::ResolveGradientAttributes);
    v.push(Pass::ResolveInherit);
    v.push(Pass::FixInvalidAttributes);
    v.push(Pass::GroupDefs);
    assert(v@ =~= prepare_passes());
    v
}

/// The passes that remove whole elements, as far as switched on.
fn plan_elements(o: &Options) -> (v: Vec<Pass>)
    ensures
        v@ == element_passes(*o),
{
    let mut v: Vec<Pass> = Vec::new();
    push_if(&mut v, o.remove_title, Pass::RemoveTitle);
    assert(v@ =~= gate(o.remove_title, Pass::RemoveTitle));
    push_if(&mut v, o.remove_desc, Pass::RemoveDesc);
    push_if(&mut v, o.remove_metadata, Pass::RemoveMetadata);
    push_if(&mut v, o.remove_unused_defs, Pass::RemoveUnusedDefs);
    push_if(&mut v, o.remove_invalid_stops, Pass::RemoveInvalidStops);
    v
}

/// The passes on definitions, as far as switched on.
fn plan_definitions(o: &Options) -> (v: Vec<Pass>)
    ensures
        v@ == definition_passes(*o),
{
    let mut v: Vec<Pass> = Vec::new();
    push_if(&mut v, o.apply_transform_to_gradients, Pass::ApplyTransformToGradients);
    assert(v@ =~= gate(o.apply_transform_to_gradients, Pass::ApplyTransformToGradients));
    push_if(&mut v, o.remove_dupl_linear_gradients, Pass::RemoveDuplLinearGradients);
    push_if(&mut v, o.remove_dupl_radial_gradients, Pass::RemoveDuplRadialGradients);
    push_if(&mut v, o.remove_dupl_fe_gaussian_blur, Pass::RemoveDuplFeGaussianBlur);
    push_if(&mut v, o.regroup_gradient_stops, Pass::RegroupGradientStops);
    push_if(&mut v, o.merge_gradients, Pass::MergeGradients);
    push_if(&mut v, o.apply_transform_to_gradients, Pass::ApplyTransformToGradients);
    push_if(&mut v, o.regroup_gradient_stops, Pass::RegroupGradientStops);
    v
}

/// The passes that simplify shapes and groups, as far as switched on.
fn plan_shapes(o: &Options) -> (v: Vec<Pass>)
    ensures
        v@ == shape_passes(*o),
{
    let mut v: Vec<Pass> = Vec::new();
    push_if(&mut v, o.apply_transform_to_shapes, Pass::ApplyTransformToShapes);
    assert(v@ =~= gate(o.apply_transform_to_shapes, Pass::ApplyTransformToShapes));
    push_if(&mut v, o.convert_shapes, Pass::ConvertShapesToPaths);
    push_if(&mut v, o.paths_to_relative, Pass::ProcessPaths);
    push_if(&mut v, o.remove_invisible_elements, Pass::RemoveInvisibleElements);
    push_if(&mut v, o.ungroup_groups, Pass::UngroupGroups);
    push_if(&mut v, o.resolve_use, Pass::ResolveUse);
    v
}

/// The passes that strip and group attributes, as far as switched on.
fn plan_attributes(o: &Options) -> (v: Vec<Pass>)
    ensures
        v@ == attribute_passes(*o),
{
    let mut v: Vec<Pass> = Vec::new();
    push_if(&mut v, o.remove_default_attributes, Pass::RemoveDefaultAttributes);
    assert(v@ =~= gate(o.remove_default_attributes, Pass::RemoveDefaultAttributes));
    push_if(&mut v, o.remove_text_attributes, Pass::RemoveTextAttributes);
    push_if(&mut v, o.remove_needless_attributes, Pass::RemoveNeedlessAttributes);
    push_if(&mut v, o.remove_gradient_attributes, Pass::RemoveGradientAttributes);
    push_if(&mut v, o.remove_unused_coordinates, Pass::RemoveUnusedCoordinates);
    push_if(&mut v, o.group_by_style, Pass::GroupByStyle);
    v
}

/// The final fix-ups, as far as switched on.
fn plan_fixups(o: &Options) -> (v: Vec<Pass>)
    ensures
        v@ == fixup_passes(*o),
{
    let mut v: Vec<Pass> = Vec::new();
    push_if(&mut v, o.remove_unreferenced_ids, Pass::RemoveUnreferencedIds);
    assert(v@ =~= gate(o.remove_unreferenced_ids, Pass::RemoveUnreferencedIds));
    push_if(&mut v, o.trim_ids, Pass::TrimIds);
    push_if(&mut v, o.remove_version, Pass::RemoveVersion);
    push_if(&mut v, o.ungroup_defs, Pass::UngroupDefs);
    let ghost front = v@;
    v.push(Pass::RemoveEmptyDefs);
    v.push(Pass::FixXmlnsAttribute);
    assert(v@ =~= front + seq![Pass::RemoveEmptyDefs, Pass::FixXmlnsAttribute]);
    v
}

/// The passes that run under `options`, in their order.
pub fn plan(options: &Options) -> (passes: Vec<Pass>)
    ensures
        passes@ == planned(*options),
{
    let mut v = plan_prepare();
    let mut elements = plan_elements(options);
    v.append(&mut elements);
    let mut definitions = plan_definitions(options);
    v.append(&mut definitions);
    let mut shapes = plan_shapes(options);
    v.append(&mut shapes);
    let mut attributes = plan_attributes(options);
    v.append(&mut attributes);
    let mut fixups = plan_fixups(options);
    v.append(&mut fixups);
    push_if(&mut v, options.join_style_attributes, Pass::JoinStyleAttributes);
    v
}

/// What [`run_pass`] makes of a document.  It performs the five passes
/// that are this library's own.  Every other pass is the caller's and
/// is skipped here: the document stays as it is, whatever that pass
/// would do to it.
pub open spec fn performed(t: Tree, pass: Pass) -> Tree {
    match pass {
        Pass::RemoveDuplLinearGradients => merged(t, MergeRule::Kind(ElementKind::LinearGradient)),
        Pass::RemoveDuplRadialGradients => merged(t, MergeRule::Kind(ElementKind::RadialGradient)),
        Pass::RemoveDuplFeGaussianBlur => merged(t, MergeRule::Kind(ElementKind::Filter)),
        Pass::RegroupGradientStops => merged(t, MergeRule::Stops),
        Pass::UngroupDefs => flatten(t),
        _ => t,
    }
}

/// What [`run_pass`] makes of a document when it is called for each of
/// `passes` in turn.
pub open spec fn performed_all(t: Tree, passes: Seq<Pass>) -> Tree
    decreases passes.len(),
{
    if passes.len() == 0 {
        t
    } else {
        performed_all(performed(t, passes.first()), passes.drop_first())
    }
}

/// What [`clean_doc`] makes of a document under the options `o`: the
/// library's own passes of the plan, in the plan's order.
pub open spec fn cleaned(t: Tree, o: Options) -> Tree {
    performed_all(t, planned(o))
}

/// What [`clean_doc`] makes of a document is a function of the
/// document's value and the options: equal documents cleaned under
/// equal options come out equal.
pub proof fn law_clean_deterministic(a: Document, b: Document, o: Options)
    requires
        a@ == b@,
    ensures
        cleaned(a@, o) == cleaned(b@, o),
{
}

/// Runs `pass` on the document if it is one of the library's own, and
/// says whether the document changed.  A pass of the caller's is
/// skipped: the document stays as it is and the answer is `false`.
pub fn run_pass(doc: &mut Document, pass: Pass) -> (changed: bool)
    requires
        old(doc).wf(),
    ensures
        final(doc).wf(),
        final(doc)@ == performed(old(doc)@, pass),
        changed == (final(doc)@ != old(doc)@),
{
    match pass {
        Pass::RemoveDuplLinearGradients => merge_duplicates(doc, ElementKind::LinearGradient),
        Pass::RemoveDuplRadialGradients => merge_duplicates(doc, ElementKind::RadialGradient),
        Pass::RemoveDuplFeGaussianBlur => merge_duplicates(doc, ElementKind::Filter),
        Pass::RegroupGradientStops => regroup_gradient_stops(doc),
        Pass::UngroupDefs => ungroup_defs(doc),
        _ => false,
    }
}

/// Checks that the document has a root element of kind `Svg`, then
/// goes through the passes of [`plan`] in their order and runs those
/// that are the library's own; the caller's passes are skipped here.
/// Without such a root nothing is changed.
pub fn clean_doc(doc: &mut Document, options: &Options) -> (r: Result<(), Error>)
    requires
        old(doc).wf(),
    ensures
        final(doc).wf(),
        has_svg_root(old(doc)@) ==> r == Ok::<(), Error>(()) && final(doc)@ == cleaned(
            old(doc)@,
            *options,
        ),
        !has_svg_root(old(doc)@) ==> r == Err::<(), Error>(Error::Validation) && final(doc)@
            == old(doc)@,
{
    if !doc.has_svg_root() {
        return Err(Error::Validation);
    }
    let passes = plan(options);
    let ghost start = doc@;
    let mut i: usize = 0;
    proof {
        assert(passes@.skip(0) =~= passes@);
    }
    while i < passes.len()
        invariant
            i <= passes.len(),
            doc.wf(),
            performed_all(doc@, passes@.skip(i as int)) == performed_all(start, passes@),
        decreases passes.len() - i,
    {
        proof {
            assert(passes@.skip(i as int).first() == passes@[i as int]);
            assert(passes@.skip(i as int).drop_first() =~= passes@.skip(i + 1));
        }
        run_pass(doc, passes[i]);
        i += 1;
    }
    Ok(())
}

} // verus!
