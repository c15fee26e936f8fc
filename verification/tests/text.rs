use fruits::json_indent::{try_write_new_line_and_indents, JsonIndentState, JsonIndentation};
use fruits::shader_standard::shader_standard;
use fruits::swizzling::{
    generate_swizzlings, generate_swizzlings_indices, generate_swizzlings_with_zeros,
    generate_vector_swizzling, generate_vector_swizzling_impl, to_additional_parameters,
    vector_swizzling_methods,
};

#[test]
fn indices_enumerate_in_lexicographic_order() {
    let s = generate_swizzlings_indices(2, 3);
    assert_eq!(s.len(), 9);
    assert_eq!(s[0], vec![0, 0]);
    assert_eq!(s[1], vec![0, 1]);
    assert_eq!(s[5], vec![1, 2]);
    assert_eq!(s[8], vec![2, 2]);
    assert_eq!(generate_swizzlings_indices(0, 2), vec![vec![0], vec![1]]);
    assert_eq!(generate_swizzlings_indices(3, 2).len(), 8);
}

#[test]
fn zero_slot_is_the_last_index() {
    let s = generate_swizzlings_with_zeros(2, 2);
    assert_eq!(s.len(), 9);
    assert_eq!(s[0], vec![Some(0), Some(0)]);
    assert_eq!(s[2], vec![Some(0), None]);
    assert_eq!(s[8], vec![None, None]);
}

#[test]
fn additional_parameters_follow_positions() {
    assert_eq!(to_additional_parameters(vec![None, Some(0), None]), ", x: T, z: T");
    assert_eq!(to_additional_parameters(vec![Some(1), Some(0)]), "");
}

#[test]
fn vector_swizzling_accessors() {
    let methods = generate_vector_swizzling(2, &["x", "y"]);
    assert_eq!(methods.len(), 8);
    assert_eq!(methods[0], "pub fn xx(&self) -> Vec2<T> { Vec2::new(self.x, self.x) }");
    assert!(methods.contains(&String::from("pub fn yx(&self) -> Vec2<T> { Vec2::new(self.y, self.x) }")));
    assert!(methods.contains(&String::from("pub fn nx(&self, x: T) -> Vec2<T> { Vec2::new(x, self.x) }")));
    assert!(!methods.iter().any(|m| m.starts_with("pub fn nn(")));
}

#[test]
fn upper_case_components_are_lowered() {
    let from_upper = generate_vector_swizzling(2, &["X", "Y"]);
    let lowered = vec![String::from("x"), String::from("y")];
    assert_eq!(from_upper, vector_swizzling_methods(2, &lowered));
    assert_eq!(from_upper[1], "pub fn xy(&self) -> Vec2<T> { Vec2::new(self.x, self.y) }");
}

#[test]
fn impl_blocks() {
    let text = generate_vector_swizzling_impl(2, 3);
    assert!(text.starts_with("impl<T: Copy> Vec2<T> {\n    pub fn xxx(&self) -> Vec3<T> { Vec3::new(self.x, self.x, self.x) }\n"));
    assert!(text.contains("    pub fn xyn(&self, z: T) -> Vec3<T> { Vec3::new(self.x, self.y, z) }\n"));
    assert!(text.ends_with("}\n"));
    let all = generate_swizzlings();
    assert_eq!(all.len(), 9);
    assert_eq!(all[0], generate_vector_swizzling_impl(2, 2));
    assert_eq!(all[5], generate_vector_swizzling_impl(3, 4));
    assert_eq!(all[0].lines().count(), 2 + 8);
    assert_eq!(all[8].lines().count(), 2 + 624);
}

#[test]
fn shader_variants() {
    let lit = shader_standard(true, false);
    let unlit = shader_standard(false, true);
    assert!(lit.contains("cook_torrance_brdf("));
    assert!(lit.contains("@location(1) normal_world"));
    assert!(lit.contains("discard;"));
    assert!(lit.contains("for (var i: u32 = 0; i < global_data.lights_count; i++)"));
    assert!(!unlit.contains("discard;"));
    assert!(!unlit.contains("@location(1) normal_world"));
    assert!(!unlit.contains("for (var i: u32"));
    assert!(unlit.trim_end().ends_with("return color;\n}"));
    assert!(lit.starts_with("\n@group(0) @binding(0) var<uniform> global_data: GlobalData;"));
}

#[test]
fn indentation_writes() {
    let mut s = String::from("[");
    try_write_new_line_and_indents(&mut s, Some(JsonIndentState { size: 2, count: 3 }));
    assert_eq!(s, "[\n      ");
    try_write_new_line_and_indents(&mut s, None);
    assert_eq!(s, "[\n      ");
    let root = JsonIndentState::root(4);
    assert_eq!(root.count, 0);
    try_write_new_line_and_indents(&mut s, Some(root));
    assert_eq!(s, "[\n      \n");
    assert_eq!(JsonIndentation::default(), JsonIndentation::Flat);
}

#[test]
fn swizzling_without_components_has_no_accessor() {
    assert!(generate_vector_swizzling(6, &[]).is_empty());
    assert!(generate_vector_swizzling(2, &[]).is_empty());
}
