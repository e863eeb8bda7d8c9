use ui_core::address::Address;
use ui_core::data::Data;
use ui_core::error::TreeError;
use ui_core::layout::{PositionLayout, Rect};
use ui_core::tree::{Hierarchy, ROOT};

fn full() -> PositionLayout {
    PositionLayout::full()
}

#[test]
fn new_hierarchy_has_a_lone_root() {
    let h = Hierarchy::new();
    assert_eq!(h.node_count(), 1);
    assert!(h.contains_node(ROOT));
    assert_eq!(h.root_get().get_path(), "");
    assert_eq!(h.get_all_paths(), Vec::<String>::new());
    assert_eq!(h.width(), 0);
    assert_eq!(h.height(), 0);
}

#[test]
fn permanent_indices_follow_creation_order() {
    let mut h = Hierarchy::new();
    assert_eq!(h.create_child(ROOT, false, full(), "x"), Address::Permanent(0));
    assert_eq!(h.create_child(ROOT, false, full(), "y"), Address::Permanent(1));
    assert_eq!(h.create_child(ROOT, false, full(), "z"), Address::Permanent(2));
    let second = h.resolve(ROOT, "#p1").unwrap();
    assert_eq!(h.branch(second).get_path(), "#p1");
    h.create_named_child(ROOT, "a", full()).unwrap();
    h.destroy_by_name(ROOT, "a").unwrap();
    assert_eq!(h.resolve(ROOT, "#p1").unwrap(), second);
}

#[test]
fn removable_slots_take_the_smallest_free_id() {
    let mut h = Hierarchy::new();
    assert_eq!(h.create_child(ROOT, true, full(), "a"), Address::Removable(0));
    assert_eq!(h.create_child(ROOT, true, full(), "b"), Address::Removable(1));
    assert_eq!(h.create_child(ROOT, true, full(), "c"), Address::Removable(2));
    h.destroy(ROOT, "#r1").unwrap();
    assert_eq!(h.create_child(ROOT, true, full(), "d"), Address::Removable(1));
    assert_eq!(h.create_child(ROOT, true, full(), "e"), Address::Removable(3));
}

#[test]
fn empty_name_makes_an_anonymous_permanent_child() {
    let mut h = Hierarchy::new();
    assert_eq!(h.create_named_child(ROOT, "", full()).unwrap(), "#p0");
    assert_eq!(h.create_named_child(ROOT, "", full()).unwrap(), "#p1");
    assert!(matches!(h.translate(ROOT, ""), Err(TreeError::UnknownKey(_))));
    assert!(h.resolve(ROOT, "#p0").is_ok());
    assert!(h.resolve(ROOT, "#r0").is_err());
}

#[test]
fn duplicate_name_fails_and_changes_nothing() {
    let mut h = Hierarchy::new();
    assert_eq!(h.create_named_child(ROOT, "a", full()).unwrap(), "a");
    let before_count = h.node_count();
    let before_paths = h.get_all_paths();
    let r = h.create_named_child(ROOT, "a", full());
    match r {
        Err(TreeError::KeyInUse(k)) => assert_eq!(k, vec!['a']),
        _ => panic!("expected a collision"),
    }
    assert_eq!(h.node_count(), before_count);
    assert_eq!(h.get_all_paths(), before_paths);
    assert_eq!(h.translate(ROOT, "a").unwrap(), "#r0");
}

#[test]
fn permanent_nodes_cannot_be_destroyed() {
    let mut h = Hierarchy::new();
    h.create_named_child(ROOT, "", full()).unwrap();
    assert!(matches!(h.destroy(ROOT, "#p0"), Err(TreeError::PermanentIndestructible)));
    assert!(matches!(h.destroy(ROOT, "#p7"), Err(TreeError::PermanentIndestructible)));
    assert!(matches!(h.destroy(ROOT, "#pxyz"), Err(TreeError::PermanentIndestructible)));
    assert!(h.resolve(ROOT, "#p0").is_ok());
}

#[test]
fn destroy_by_name_forgets_the_name() {
    let mut h = Hierarchy::new();
    h.create_named_child(ROOT, "a", full()).unwrap();
    assert!(h.exists_path(ROOT, "a"));
    h.destroy_by_name(ROOT, "a").unwrap();
    assert!(!h.exists_path(ROOT, "a"));
    assert!(matches!(h.translate(ROOT, "a"), Err(TreeError::UnknownKey(_))));
    assert!(matches!(h.destroy_by_name(ROOT, "a"), Err(TreeError::NotRegistered(_))));
}

#[test]
fn destroy_by_address_leaves_a_dangling_name() {
    let mut h = Hierarchy::new();
    h.create_named_child(ROOT, "a", full()).unwrap();
    h.destroy(ROOT, "#r0").unwrap();
    assert_eq!(h.translate(ROOT, "a").unwrap(), "#r0");
    assert!(!h.exists_path(ROOT, "a"));
    assert!(matches!(h.destroy_by_name(ROOT, "a"), Err(TreeError::RemovableMissing(0))));
    assert!(matches!(h.destroy(ROOT, "#r0"), Err(TreeError::RemovableMissing(0))));
}

#[test]
fn named_child_resolves_to_itself() {
    let mut h = Hierarchy::new();
    h.create_named_child(ROOT, "first", full()).unwrap();
    h.create_named_child(ROOT, "second", full()).unwrap();
    let id = h.resolve_or_pass(ROOT, "second").unwrap();
    assert_eq!(h.branch(id).get_path(), "second");
    assert_eq!(h.resolve_or_pass(ROOT, "#r1").unwrap(), id);
    assert_eq!(h.resolve(ROOT, "#r1").unwrap(), id);
}

#[test]
fn visibility_is_pushed_down_only_on_change() {
    let mut h = Hierarchy::new();
    h.create_named_child(ROOT, "a", full()).unwrap();
    let a = h.resolve_or_pass(ROOT, "a").unwrap();
    h.create_named_child(a, "b", full()).unwrap();
    let b = h.resolve_chain_or_pass(ROOT, "a/b").unwrap();
    assert!(h.branch(b).is_visible());
    h.set_visibility(a, false);
    assert!(!h.branch(a).is_visible());
    assert!(!h.branch(b).is_visible());
    assert!(h.branch(b).get_visibility());
    h.set_visibility(a, false);
    assert!(!h.branch(b).is_visible());
    h.set_visibility(b, false);
    h.set_visibility(a, true);
    assert!(h.branch(a).is_visible());
    assert!(!h.branch(b).is_visible());
    h.set_visibility(b, true);
    assert!(h.branch(b).is_visible());
}

#[test]
fn child_created_under_hidden_parent_is_hidden() {
    let mut h = Hierarchy::new();
    h.set_visibility(ROOT, false);
    h.create_named_child(ROOT, "a", full()).unwrap();
    let a = h.resolve_or_pass(ROOT, "a").unwrap();
    assert!(!h.branch(a).is_visible());
    assert!(h.branch(a).get_visibility());
}

#[test]
fn layout_pass_places_children_and_repeats_exactly() {
    let mut h = Hierarchy::new();
    let half = PositionLayout { left: 25, top: 0, right: 75, bottom: 50 };
    h.create_named_child(ROOT, "a", half).unwrap();
    let a = h.resolve_or_pass(ROOT, "a").unwrap();
    h.create_named_child(a, "", PositionLayout { left: 50, top: 50, right: 100, bottom: 100 }).unwrap();
    let inner = h.resolve_chain(ROOT, "#r0/#p0").unwrap();
    h.set_size(200, 100);
    h.update();
    assert_eq!(h.root_get().container_get().position, Rect { x: 0, y: 0, width: 200, height: 100 });
    assert_eq!(h.branch(a).container_get().position, Rect { x: 50, y: 0, width: 100, height: 50 });
    assert_eq!(h.branch(inner).container_get().position, Rect { x: 100, y: 25, width: 50, height: 25 });
    let first: Vec<Rect> = (0..h.node_count()).map(|i| h.branch(i).container_get().position).collect();
    h.update();
    let second: Vec<Rect> = (0..h.node_count()).map(|i| h.branch(i).container_get().position).collect();
    assert_eq!(first, second);
}

#[test]
fn layout_clamps_percentages() {
    let odd = PositionLayout { left: 150, top: 80, right: 20, bottom: 10 };
    let r = odd.place(Rect { x: 10, y: 20, width: 100, height: 50 });
    assert_eq!(r, Rect { x: 110, y: 60, width: 0, height: 0 });
}

#[test]
fn hierarchy_update_sets_size_and_lays_out() {
    let mut h = Hierarchy::new();
    h.create_named_child(ROOT, "a", full()).unwrap();
    ui_core::cascade::hierarchy_update(&mut h, 640, 480);
    assert_eq!(h.width(), 640);
    assert_eq!(h.height(), 480);
    let a = h.resolve_or_pass(ROOT, "a").unwrap();
    assert_eq!(h.branch(a).container_get().position, Rect { x: 0, y: 0, width: 640, height: 480 });
}

#[test]
fn paths_list_permanent_before_removable() {
    let mut h = Hierarchy::new();
    h.create_named_child(ROOT, "", full()).unwrap();
    let p = h.resolve(ROOT, "#p0").unwrap();
    h.create_named_child(p, "b", full()).unwrap();
    assert_eq!(h.get_all_paths(), vec!["#p0".to_string(), "#p0/b".to_string()]);
}

#[test]
fn paths_follow_depth_first_order() {
    let mut h = Hierarchy::new();
    h.create_named_child(ROOT, "a", full()).unwrap();
    let a = h.resolve_or_pass(ROOT, "a").unwrap();
    h.create_named_child(a, "b", full()).unwrap();
    h.create_named_child(ROOT, "", full()).unwrap();
    h.create_named_child(ROOT, "c", full()).unwrap();
    assert_eq!(
        h.get_all_paths(),
        vec!["#p0".to_string(), "a".to_string(), "a/b".to_string(), "c".to_string()]
    );
    assert_eq!(h.get_all_paths_from(a), vec!["a".to_string(), "a/b".to_string()]);
}

#[test]
fn destroying_a_node_removes_its_subtree() {
    let mut h = Hierarchy::new();
    h.create_named_child(ROOT, "a", full()).unwrap();
    let a = h.resolve_or_pass(ROOT, "a").unwrap();
    h.create_named_child(a, "g", full()).unwrap();
    let g = h.resolve_chain_or_pass(ROOT, "a/g").unwrap();
    assert!(h.exists_path(ROOT, "#r0/#r0"));
    h.destroy(ROOT, "#r0").unwrap();
    assert!(!h.contains_node(a));
    assert!(!h.contains_node(g));
    assert!(!h.exists_path(ROOT, "#r0/#r0"));
    assert!(!h.exists_path(ROOT, "a/g"));
    assert!(h.resolve_chain(ROOT, "#r0/#r0").is_err());
    assert_eq!(h.get_all_paths(), Vec::<String>::new());
}

#[test]
fn destroy_follows_a_structural_chain() {
    let mut h = Hierarchy::new();
    h.create_named_child(ROOT, "a", full()).unwrap();
    let a = h.resolve_or_pass(ROOT, "a").unwrap();
    h.create_named_child(a, "g", full()).unwrap();
    h.destroy(ROOT, "#r0/#r0").unwrap();
    assert!(h.contains_node(a));
    assert!(!h.exists_path(ROOT, "a/g"));
    assert!(matches!(h.destroy(ROOT, "#r5/#r0"), Err(TreeError::RemovableMissing(5))));
}

#[test]
fn translation_of_chains() {
    let mut h = Hierarchy::new();
    h.create_named_child(ROOT, "", full()).unwrap();
    h.create_named_child(ROOT, "a", full()).unwrap();
    let a = h.resolve_or_pass(ROOT, "a").unwrap();
    h.create_named_child(a, "x", full()).unwrap();
    h.create_named_child(a, "b", full()).unwrap();
    assert_eq!(h.translate_chain(ROOT, "a/b").unwrap(), "#r0/#r1");
    assert_eq!(h.translate_chain_or_pass(ROOT, "#r0/b").unwrap(), "#r0/#r1");
    assert_eq!(h.translate_or_pass(ROOT, "#p0").unwrap(), "#p0");
    assert_eq!(h.translate_or_pass(ROOT, "#garbage").unwrap(), "#garbage");
    assert!(matches!(h.translate_chain(ROOT, "#r0/b"), Err(TreeError::UnknownKey(_))));
    assert!(matches!(h.translate_chain(ROOT, "a/zz"), Err(TreeError::UnknownKey(k)) if k == vec!['z', 'z']));
    assert_eq!(h.translate_chain_or_pass(ROOT, "a/#r7").unwrap(), "#r0/#r7");
}

#[test]
fn resolution_errors_name_the_failing_segment() {
    let mut h = Hierarchy::new();
    h.create_named_child(ROOT, "", full()).unwrap();
    assert!(matches!(h.resolve(ROOT, "#"), Err(TreeError::MissingInformation(_))));
    assert!(matches!(h.resolve(ROOT, "#px"), Err(TreeError::InvalidNumber(_))));
    assert!(matches!(h.resolve(ROOT, "#p"), Err(TreeError::InvalidNumber(_))));
    assert!(matches!(h.resolve(ROOT, "#p-1"), Err(TreeError::InvalidNumber(_))));
    assert!(matches!(h.resolve(ROOT, "#p99999999999999999999999"), Err(TreeError::InvalidNumber(_))));
    assert!(matches!(h.resolve(ROOT, "#x1"), Err(TreeError::InvalidClass('x', _))));
    assert!(matches!(h.resolve(ROOT, "#p3"), Err(TreeError::PermanentMissing(3))));
    assert!(matches!(h.resolve(ROOT, "#r2"), Err(TreeError::RemovableMissing(2))));
    assert!(matches!(h.resolve_or_pass(ROOT, ""), Err(TreeError::NoKey)));
    assert!(matches!(h.resolve_or_pass(ROOT, "nope"), Err(TreeError::UnknownKey(_))));
    assert!(matches!(h.resolve_chain(ROOT, "#p0/#q1"), Err(TreeError::InvalidClass('q', _))));
    assert!(matches!(h.resolve_chain_or_pass(ROOT, "#p0/"), Err(TreeError::NoKey)));
    assert!(matches!(h.destroy(ROOT, "#z0"), Err(TreeError::InvalidClass('z', _))));
    assert!(matches!(h.destroy(ROOT, "#rq"), Err(TreeError::InvalidNumber(_))));
    assert!(matches!(h.destroy(ROOT, "#"), Err(TreeError::MissingInformation(_))));
}

#[test]
fn plus_sign_and_leading_zeros_are_read() {
    let mut h = Hierarchy::new();
    h.create_named_child(ROOT, "", full()).unwrap();
    h.create_named_child(ROOT, "", full()).unwrap();
    let one = h.resolve(ROOT, "#p1").unwrap();
    assert_eq!(h.resolve(ROOT, "#p+1").unwrap(), one);
    assert_eq!(h.resolve(ROOT, "#p001").unwrap(), one);
}

#[test]
fn depth_and_focus() {
    let mut h = Hierarchy::new();
    h.create_named_child(ROOT, "a", full()).unwrap();
    let a = h.resolve_or_pass(ROOT, "a").unwrap();
    assert_eq!(h.root_get().get_depth(), 0);
    assert_eq!(h.branch(a).get_depth(), 2);
    assert!(!h.branch(a).get_focus());
    h.set_focus(a, true);
    assert!(h.branch(a).get_focus());
    assert_eq!(h.branch(a).get_depth(), 3);
}

#[test]
fn layout_and_data_setters() {
    let mut h = Hierarchy::new();
    h.create_named_child(ROOT, "a", full()).unwrap();
    let a = h.resolve_or_pass(ROOT, "a").unwrap();
    let l = PositionLayout { left: 10, top: 20, right: 30, bottom: 40 };
    h.layout_set(a, l);
    assert_eq!(h.branch(a).layout_get(), l);
    assert!(h.branch(a).data_get().is_none());
    let mut d = Data::new();
    d.bools.insert("on".to_string(), true);
    h.data_set(a, Some(d));
    assert_eq!(h.branch(a).data_get().as_ref().unwrap().bools.get("on"), Some(&true));
}

#[test]
fn nested_paths_use_the_cached_parent_path() {
    let mut h = Hierarchy::new();
    h.create_named_child(ROOT, "a", full()).unwrap();
    let a = h.resolve_or_pass(ROOT, "a").unwrap();
    h.create_named_child(a, "b", full()).unwrap();
    let b = h.resolve_chain_or_pass(ROOT, "a/b").unwrap();
    h.create_named_child(b, "c", full()).unwrap();
    let c = h.resolve_chain_or_pass(ROOT, "a/b/c").unwrap();
    assert_eq!(h.branch(c).get_path(), "a/b/c");
    assert_eq!(h.translate_chain(ROOT, "a/b/c").unwrap(), "#r0/#r0/#r0");
}

fn sample() -> Hierarchy {
    let mut h = Hierarchy::new();
    h.create_named_child(ROOT, "", full()).unwrap();
    h.create_named_child(ROOT, "a", full()).unwrap();
    let a = h.resolve_or_pass(ROOT, "a").unwrap();
    h.create_named_child(a, "b", full()).unwrap();
    h
}

#[test]
fn register_map_shows_named_children() {
    let h = sample();
    assert_eq!(h.get_map(), "#ROOT\n  |-> a\n  |    |-> b");
    let a = h.resolve_or_pass(ROOT, "a").unwrap();
    assert_eq!(h.get_map_from(a), "a\n  |-> b");
}

#[test]
fn debug_map_shows_every_child() {
    let h = sample();
    assert_eq!(
        h.get_map_debug(),
        "#ROOT - [ROOT] [0] | (true/true)\n  |-> a (#r0) - [a] [1] | (true/true)\n  |    |-> b (#r0) - [b] [2] | (true/true)\n  |-> #p0 - [#p0] [1] | (true/true)"
    );
}

#[test]
fn debug_map_marks_dangling_names() {
    let mut h = sample();
    h.destroy(ROOT, "#r0").unwrap();
    assert_eq!(h.get_map(), "#ROOT");
    assert_eq!(
        h.get_map_debug(),
        "#ROOT - [ROOT] [0] | (true/true)\n  |-> a #[! Dangling register pointer !]\n  |-> #p0 - [#p0] [1] | (true/true)"
    );
}

#[test]
fn debug_map_shows_hidden_nodes() {
    let mut h = sample();
    let a = h.resolve_or_pass(ROOT, "a").unwrap();
    h.set_visibility(a, false);
    assert_eq!(
        h.get_map_debug_from(a),
        "a - [a] [1] | (false/true)\n  |-> b (#r0) - [b] [2] | (true/false)"
    );
}

#[test]
fn error_messages_explain() {
    let mut h = Hierarchy::new();
    h.create_named_child(ROOT, "a", full()).unwrap();
    assert_eq!(h.resolve(ROOT, "#x1").unwrap_err().message(), "The second character 'x' in '#x1' needs to be either 'r' or 'p' (Stands for storage stack)!");
    assert_eq!(h.resolve(ROOT, "#p4").unwrap_err().message(), "Permanent branch with index '4' does not exist!");
    assert_eq!(h.resolve(ROOT, "#r12").unwrap_err().message(), "Removable branch with slot '12' does not exist!");
    assert_eq!(h.resolve(ROOT, "#").unwrap_err().message(), "Path '#' is missing information (Example: #r12)!");
    assert_eq!(h.resolve(ROOT, "#pz").unwrap_err().message(), "The path '#pz' is not a valid number!");
    assert_eq!(h.translate(ROOT, "q").unwrap_err().message(), "The key 'q' is not in the register!");
    assert_eq!(h.create_named_child(ROOT, "a", full()).unwrap_err().message(), "The key 'a' is already in use!");
    assert_eq!(h.resolve_or_pass(ROOT, "").unwrap_err().message(), "There is no key!");
    assert_eq!(h.destroy_by_name(ROOT, "zz").unwrap_err().message(), "Widget registered as 'zz' does not exist!");
    assert_eq!(h.destroy(ROOT, "#p0").unwrap_err().message(), "Widgets with no name are supposed to be permanent and cannot be destroyed directly!");
}

#[test]
fn payloads_start_empty_and_survive_other_operations() {
    let mut h = Hierarchy::new();
    assert!(h.root_get().data_get().is_none());
    h.create_named_child(ROOT, "a", full()).unwrap();
    let a = h.resolve_or_pass(ROOT, "a").unwrap();
    assert!(h.branch(a).data_get().is_none());
    let mut d = Data::new();
    d.integers.insert("count".to_string(), 7);
    h.data_set(a, Some(d));
    assert!(h.create_named_child(ROOT, "a", full()).is_err());
    h.create_named_child(ROOT, "b", full()).unwrap();
    let b = h.resolve_or_pass(ROOT, "b").unwrap();
    assert!(h.branch(b).data_get().is_none());
    h.set_focus(a, true);
    h.set_visibility(a, false);
    h.set_size(10, 10);
    h.update();
    h.destroy_by_name(ROOT, "b").unwrap();
    assert_eq!(h.branch(a).data_get().as_ref().unwrap().integers.get("count"), Some(&7));
    h.data_set(a, None);
    assert!(h.branch(a).data_get().is_none());
}

#[test]
fn slot_text_destroys_that_slot() {
    let mut h = Hierarchy::new();
    for _ in 0..12 {
        h.create_child(ROOT, true, full(), "n");
    }
    assert!(h.exists_path(ROOT, "#r10"));
    h.destroy(ROOT, "#r10").unwrap();
    assert!(!h.exists_path(ROOT, "#r10"));
    assert!(h.exists_path(ROOT, "#r11"));
    assert_eq!(h.create_child(ROOT, true, full(), "m"), Address::Removable(10));
}

#[test]
fn permanent_last_segment_of_a_chain_is_never_destroyed() {
    let mut h = Hierarchy::new();
    h.create_named_child(ROOT, "a", full()).unwrap();
    let a = h.resolve_or_pass(ROOT, "a").unwrap();
    h.create_named_child(a, "", full()).unwrap();
    assert!(matches!(h.destroy(ROOT, "#r0/#p0"), Err(TreeError::PermanentIndestructible)));
    assert!(h.exists_path(ROOT, "#r0/#p0"));
}
