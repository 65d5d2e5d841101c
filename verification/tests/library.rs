use ayagami_gd::dictionary::NameMap;
use ayagami_gd::expression::{AyagamiExpressionMutator, BlendMode};
use ayagami_gd::importer::{model_import_options, motion_file_pattern, saved_resource_path, EXPRESSION_EXTENSION};
use ayagami_gd::loader::{
    builds_mesh, mask_name_of, material_slot, mesh_node_path, mesh_update, plan_masks, ArtMeshClips, MaskError,
    MeshBlend, MeshUpdate, MASK_MATERIAL_SLOT,
};
use ayagami_gd::motion::{
    curve_track_path, decode_segments, property_track_path, reset_track_properties, CurveError, CurveSegment,
    SegmentKind,
};
use ayagami_gd::mutator::AyagamiOverrideMutator;
use ayagami_gd::properties::{
    expression_property_name, expression_property_of, pose_key_of, pose_property_name, writeback_key,
    ExpressionPropertyKind, ModelRevert, ModelRoute, PropertyLookup, PropertyScope, GROUP_PREFIX, PARAMETER_PREFIX,
    PART_PREFIX,
};
use ayagami_gd::text::{begins_with, str_concat, push_decimal, trim_prefix};

fn s(x: &str) -> String {
    x.to_string()
}

// ----- text -----

#[test]
fn begins_with_checks_the_prefix() {
    assert!(begins_with("parameters/ParamAngleX", "parameters/"));
    assert!(begins_with("abc", ""));
    assert!(!begins_with("parts/", "parameters/"));
    assert!(!begins_with("par", "parameters/"));
}

#[test]
fn trim_prefix_removes_only_a_leading_prefix() {
    assert_eq!(trim_prefix("weight/smile", "weight/"), "smile");
    assert_eq!(trim_prefix("smile", "weight/"), "smile");
    assert_eq!(trim_prefix("weight/", "weight/"), "");
    assert_eq!(trim_prefix("héllo/ü", "héllo/"), "ü");
}

#[test]
fn decimal_notation() {
    let mut t = s("n=");
    push_decimal(&mut t, 0);
    assert_eq!(t, "n=0");
    let mut t = String::new();
    push_decimal(&mut t, 4294967295);
    assert_eq!(t, "4294967295");
    assert_eq!(str_concat("a", "bc"), "abc");
}

// ----- dictionary -----

#[test]
fn name_map_keeps_insertion_order() {
    let mut m: NameMap<u32> = NameMap::new();
    m.set("b", 1);
    m.set("a", 2);
    m.set("c", 3);
    m.set("a", 20);
    assert_eq!(m.len(), 3);
    assert_eq!(m.key_at(0), "b");
    assert_eq!(m.key_at(1), "a");
    assert_eq!(*m.value_at(1), 20);
    m.erase("b");
    assert_eq!(m.len(), 2);
    assert_eq!(m.key_at(0), "a");
    assert_eq!(m.get("b"), None);
    assert_eq!(m.get("c"), Some(&3));
    assert!(m.contains_key("a"));
    m.erase("zzz");
    assert_eq!(m.len(), 2);
    m.clear();
    assert_eq!(m.len(), 0);
}

// ----- properties -----

#[test]
fn pose_keys_route_by_prefix() {
    assert_eq!(pose_key_of("parameters/ParamAngleX"), Some((PropertyScope::Parameter, s("ParamAngleX"))));
    assert_eq!(pose_key_of("parts/PartArmA"), Some((PropertyScope::Part, s("PartArmA"))));
    assert_eq!(pose_key_of("position"), None);
    assert_eq!(pose_property_name(PropertyScope::Part, "PartArmA"), "parts/PartArmA");
    assert_eq!(PropertyScope::Parameter.prefix(), PARAMETER_PREFIX);
    assert_eq!(PropertyScope::Part.prefix(), PART_PREFIX);
}

#[test]
fn law_pose_name_round_trip_on_values() {
    for scope in [PropertyScope::Parameter, PropertyScope::Part] {
        let name = pose_property_name(scope, "Eye/L");
        assert_eq!(pose_key_of(&name), Some((scope, s("Eye/L"))));
    }
}

#[test]
fn only_parameters_are_written_back() {
    assert_eq!(writeback_key("parameters/ParamEyeLOpen"), Some(s("ParamEyeLOpen")));
    assert_eq!(writeback_key("parts/PartEye"), None);
    assert_eq!(writeback_key("other"), None);
}

#[test]
fn expression_properties_route_by_prefix() {
    assert_eq!(expression_property_of("weight/smile"), Some((ExpressionPropertyKind::Weight, s("smile"))));
    assert_eq!(expression_property_of("expressions/smile"), Some((ExpressionPropertyKind::Active, s("smile"))));
    assert_eq!(expression_property_of("expression_groups/smile"), Some((ExpressionPropertyKind::Group, s("smile"))));
    assert_eq!(expression_property_of("expression/smile"), None);
    assert_eq!(ExpressionPropertyKind::Group.prefix(), GROUP_PREFIX);
}

#[test]
fn law_expression_name_round_trip_on_values() {
    for kind in [ExpressionPropertyKind::Weight, ExpressionPropertyKind::Active, ExpressionPropertyKind::Group] {
        let name = expression_property_name(kind, "angry");
        assert_eq!(expression_property_of(&name), Some((kind, s("angry"))));
    }
}

fn lookup() -> PropertyLookup {
    let params = vec![(s("ParamAngleX"), 4), (s("ParamAngleY"), 5), (s("ParamAngleX"), 9)];
    let parts = vec![(s("PartHead"), 1)];
    PropertyLookup::from_ids(&params, &parts)
}

#[test]
fn model_properties_route_to_uids() {
    let l = lookup();
    assert_eq!(l.parameters.len(), 2);
    assert_eq!(l.route("parameters/ParamAngleX"), Some(ModelRoute::Parameter(9)));
    assert_eq!(l.route("parameters/ParamAngleY"), Some(ModelRoute::Parameter(5)));
    assert_eq!(l.route("parts/PartHead"), Some(ModelRoute::Part(1)));
    assert_eq!(l.route("parts/ParamAngleX"), None);
    assert_eq!(l.route("parameters/Unknown"), None);
    assert_eq!(l.route("ParamAngleX"), None);
}

#[test]
fn model_properties_revert() {
    let l = lookup();
    assert_eq!(l.revert("parameters/ParamAngleY"), Some(ModelRevert::ParameterDefault(5)));
    assert_eq!(l.revert("parameters/Unknown"), None);
    assert_eq!(l.revert("parts/Anything"), Some(ModelRevert::PartOpaque));
    assert_eq!(l.revert("size"), None);
}

// ----- expressions -----

fn mutator() -> AyagamiExpressionMutator<f32> {
    let mut m = AyagamiExpressionMutator::new();
    m.expression_grouping.set("smile", s("mouth"));
    m.expression_grouping.set("frown", s("mouth"));
    m.expression_grouping.set("blush", s(""));
    m.expression_grouping.set("wink", s("eyes"));
    m
}

#[test]
fn blend_mode_defaults_to_add() {
    assert_eq!(BlendMode::default(), BlendMode::ADD);
}

#[test]
fn toggling_on_turns_off_the_rest_of_the_group() {
    let mut m = mutator();
    m.toggle_expression("frown", true, 1.0);
    m.toggle_expression("wink", true, 1.0);
    m.toggle_expression("blush", true, 1.0);
    m.toggle_expression("smile", true, 1.0);
    assert_eq!(m.weight.get("smile"), Some(&1.0));
    assert_eq!(m.weight.get("frown"), None);
    assert_eq!(m.weight.get("wink"), Some(&1.0));
    assert_eq!(m.weight.get("blush"), Some(&1.0));
}

#[test]
fn toggling_off_keeps_the_group() {
    let mut m = mutator();
    m.toggle_expression("frown", true, 1.0);
    m.toggle_expression("smile", false, 0.0);
    assert_eq!(m.weight.get("frown"), Some(&1.0));
    assert_eq!(m.weight.get("smile"), Some(&0.0));
}

#[test]
fn ungrouped_expressions_do_not_reset_each_other() {
    let mut m = mutator();
    m.weight.set("other", 0.5);
    m.toggle_expression("blush", true, 1.0);
    m.toggle_expression("unlisted", true, 1.0);
    assert_eq!(m.weight.get("other"), Some(&0.5));
    assert_eq!(m.weight.get("blush"), Some(&1.0));
}

#[test]
fn resetting_the_empty_group_changes_nothing() {
    let mut m = mutator();
    m.weight.set("blush", 0.25);
    m.reset_group("");
    assert_eq!(m.weight.get("blush"), Some(&0.25));
    m.weight.set("smile", 0.5);
    m.weight.set("wink", 0.5);
    m.reset_group("mouth");
    assert_eq!(m.weight.get("smile"), None);
    assert_eq!(m.weight.get("wink"), Some(&0.5));
    m.reset();
    assert_eq!(m.weight.len(), 0);
    assert_eq!(m.expression_grouping.len(), 4);
}

#[test]
fn expression_groups_are_listed_once_in_order() {
    let m = mutator();
    assert_eq!(m.get_expression_groups(), vec![s("mouth"), s(""), s("eyes")]);
    let empty: AyagamiExpressionMutator<f32> = AyagamiExpressionMutator::new();
    assert!(empty.get_expression_groups().is_empty());
}

#[test]
fn group_of_defaults_to_empty() {
    let m = mutator();
    assert_eq!(m.group_of("wink"), "eyes");
    assert_eq!(m.group_of("nobody"), "");
}

// ----- override mutator -----

#[test]
fn overrides_route_by_scope() {
    let mut m: AyagamiOverrideMutator<f32> = AyagamiOverrideMutator::new();
    assert!(m.set_property("parameters/ParamAngleX", 30.0));
    assert!(m.set_property("parts/PartHead", 0.5));
    assert!(!m.set_property("visible", 1.0));
    assert_eq!(m.override_of("parameters/ParamAngleX"), Some(&30.0));
    assert_eq!(m.override_of("parts/PartHead"), Some(&0.5));
    assert_eq!(m.override_of("parts/ParamAngleX"), None);
    assert_eq!(m.override_of("visible"), None);
    assert!(m.overrides().is_empty());
    m.enabled = true;
    assert_eq!(
        m.overrides(),
        vec![(PropertyScope::Parameter, s("ParamAngleX"), 30.0), (PropertyScope::Part, s("PartHead"), 0.5)]
    );
    m.reset();
    assert!(m.overrides().is_empty());
    assert!(m.enabled);
}

// ----- motion -----

#[test]
fn curves_need_a_first_point() {
    assert_eq!(decode_segments(&vec![]), Err(CurveError::TooShort));
    assert_eq!(decode_segments(&vec![0]), Err(CurveError::TooShort));
    assert_eq!(decode_segments(&vec![0, 1]), Err(CurveError::Truncated));
}

#[test]
fn segments_of_each_kind() {
    // first point, linear, bezier, stepped, inverse stepped
    let codes = vec![0, 0, 0, 1, 1, 1, 0, 0, 0, 0, 0, 0, 2, 2, 0, 3, 3, 1];
    assert_eq!(
        decode_segments(&codes),
        Ok(vec![
            CurveSegment { kind: SegmentKind::Linear, at: 2 },
            CurveSegment { kind: SegmentKind::Bezier, at: 5 },
            CurveSegment { kind: SegmentKind::Stepped, at: 12 },
            CurveSegment { kind: SegmentKind::InverseStepped, at: 15 },
        ])
    );
}

#[test]
fn bad_segments_are_refused() {
    assert_eq!(decode_segments(&vec![0, 0, 4, 1, 1]), Err(CurveError::InvalidSegmentType));
    assert_eq!(decode_segments(&vec![0, 0, -1, 1, 1]), Err(CurveError::InvalidSegmentType));
    assert_eq!(decode_segments(&vec![0, 0, 1, 1, 1, 1, 1]), Err(CurveError::Truncated));
    assert_eq!(decode_segments(&vec![0, 0, 0, 1]), Err(CurveError::Truncated));
    assert_eq!(decode_segments(&vec![0, 0, 0, 1, 1, 7]), Err(CurveError::InvalidSegmentType));
}

#[test]
fn law_segments_tile_on_values() {
    let codes = vec![0, 0, 2, 5, 5, 1, 1, 1, 1, 1, 1, 1];
    let segs = decode_segments(&codes).unwrap();
    assert_eq!(segs[0].at, 2);
    assert_eq!(segs[1].at, 5);
    assert!(segs[1].at + 7 >= codes.len());
}

#[test]
fn curve_tracks_drive_model_properties() {
    assert_eq!(curve_track_path("Parameter", "ParamAngleX"), ".:parameters/ParamAngleX");
    assert_eq!(curve_track_path("PartOpacity", "PartArm"), ".:parts/PartArm");
    assert_eq!(curve_track_path("Model", "Opacity"), ".:/Opacity");
    assert_eq!(
        curve_track_path("Parameter", "X"),
        property_track_path(&pose_property_name(PropertyScope::Parameter, "X"))
    );
}

#[test]
fn reset_motion_keeps_pose_properties() {
    let names = vec![s("size"), s("parameters/A"), s("parts/B"), s("position"), s("parameters/C")];
    assert_eq!(reset_track_properties(&names), vec![s("parameters/A"), s("parts/B"), s("parameters/C")]);
    assert_eq!(property_track_path("parts/B"), ".:parts/B");
}

// ----- loader -----

#[test]
fn meshes_and_materials() {
    assert!(!builds_mesh(2));
    assert!(builds_mesh(3));
    assert_eq!(material_slot(MeshBlend::Normal), 0);
    assert_eq!(material_slot(MeshBlend::Add), 1);
    assert_eq!(material_slot(MeshBlend::Multiply), 2);
    assert_eq!(MASK_MATERIAL_SLOT, 3);
    assert_eq!(mesh_node_path("ArtMesh12"), "Meshes/ArtMesh12");
}

#[test]
fn mesh_updates() {
    assert_eq!(mesh_update(2, true, true, true), MeshUpdate::Hide);
    assert_eq!(mesh_update(3, true, false, false), MeshUpdate::Full);
    assert_eq!(mesh_update(3, false, true, true), MeshUpdate::Full);
    assert_eq!(mesh_update(3, false, false, true), MeshUpdate::Appearance);
    assert_eq!(mesh_update(3, false, true, false), MeshUpdate::Appearance);
}

#[test]
fn mask_names_join_uids() {
    assert_eq!(mask_name_of(&vec![]), "");
    assert_eq!(mask_name_of(&vec![7]), "7");
    assert_eq!(mask_name_of(&vec![1, 23, 0]), "1_23_0");
    assert_ne!(mask_name_of(&vec![1, 23]), mask_name_of(&vec![12, 3]));
}

#[test]
fn masks_are_shared_by_clip_list() {
    let meshes = vec![
        ArtMeshClips { uid: 10, clips: vec![1, 2] },
        ArtMeshClips { uid: 11, clips: vec![] },
        ArtMeshClips { uid: 12, clips: vec![3] },
        ArtMeshClips { uid: 13, clips: vec![1, 2] },
    ];
    let built = vec![1, 2, 3, 10, 11, 12, 13];
    let plans = plan_masks(&meshes, &built).unwrap();
    assert_eq!(plans.len(), 2);
    assert_eq!(plans[0].name, "1_2");
    assert_eq!(plans[0].parts, vec![1, 2]);
    assert_eq!(plans[0].dependents, vec![10, 13]);
    assert_eq!(plans[1].name, "3");
    assert_eq!(plans[1].dependents, vec![12]);
}

#[test]
fn masks_need_meshes() {
    let meshes = vec![ArtMeshClips { uid: 10, clips: vec![1, 2] }];
    assert_eq!(plan_masks(&meshes, &vec![1, 10]).err(), Some(MaskError::MissingMesh(2)));
    assert_eq!(plan_masks(&meshes, &vec![1, 2]).err(), Some(MaskError::MissingMesh(10)));
    let meshes = vec![ArtMeshClips { uid: 10, clips: vec![1] }, ArtMeshClips { uid: 11, clips: vec![1] }];
    assert_eq!(plan_masks(&meshes, &vec![1, 10]).err(), Some(MaskError::MissingMesh(11)));
    assert!(plan_masks(&vec![], &vec![]).unwrap().is_empty());
}

// ----- importer -----

#[test]
fn importer_options_and_paths() {
    let opts = model_import_options();
    let names: Vec<&str> = opts.iter().map(|o| o.name.as_str()).collect();
    assert_eq!(names, vec!["include_expressions", "group_expressions_by_folder", "include_motions"]);
    assert!(opts.iter().all(|o| o.default_value));
    assert_eq!(saved_resource_path("res://.godot/imported/a", "tscn"), "res://.godot/imported/a.tscn");
    assert_eq!(motion_file_pattern("/models/hiyori"), "/models/hiyori/**/*.motion3.json");
    assert_eq!(EXPRESSION_EXTENSION, "exp3.json");
}

#[test]
fn reset_motion_covers_exposed_properties() {
    let names = vec![
        pose_property_name(PropertyScope::Parameter, "ParamAngleX"),
        s("size"),
        pose_property_name(PropertyScope::Part, "PartHead"),
    ];
    assert_eq!(reset_track_properties(&names), vec![s("parameters/ParamAngleX"), s("parts/PartHead")]);
}
