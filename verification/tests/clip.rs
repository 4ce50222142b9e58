use noesis_bridge::clip::{
    clip_action, clip_writes, sync_clip_bridge, ClipAction, ClipView, NoesisClip,
};

#[test]
fn builder_collects_clips() {
    let c = NoesisClip::new()
        .clip("Panel".to_string(), vec![[0.0, 0.0], [1.0, 0.0], [1.0, 1.0]])
        .clip("Cleared".to_string(), vec![]);
    assert_eq!(c.clips.get("Panel").map(Vec::len), Some(3));
    assert_eq!(c.clips.get("Cleared").map(Vec::len), Some(0));
}

#[test]
fn new_and_default_bridges_are_empty() {
    let fresh: NoesisClip<[f32; 2]> = NoesisClip::new();
    assert!(fresh.clips.is_empty());
    assert_eq!(fresh.clips.len(), 0);
    assert!(fresh.clips.get("Panel").is_none());
    let default: NoesisClip<[f32; 2]> = NoesisClip::default();
    assert!(default.clips.is_empty());
}

#[test]
fn set_replaces_one_polygon_and_keeps_the_others() {
    let mut c = NoesisClip::new()
        .clip("A".to_string(), vec![[0.0f32, 0.0], [1.0, 0.0], [1.0, 1.0]])
        .clip("B".to_string(), vec![[5.0, 5.0]]);
    c.set("A".to_string(), vec![[2.0, 2.0], [3.0, 2.0]]);
    assert_eq!(c.clips.len(), 2);
    assert_eq!(c.clips.get("A"), Some(&vec![[2.0, 2.0], [3.0, 2.0]]));
    assert_eq!(c.clips.get("B"), Some(&vec![[5.0, 5.0]]));
    c.set("A".to_string(), vec![]);
    assert_eq!(c.clips.get("A"), Some(&vec![]));
    assert_eq!(c.clips.len(), 2);
}

#[test]
fn set_does_what_the_builder_does() {
    let built = NoesisClip::new()
        .clip("A".to_string(), vec![[1.0f32, 2.0]])
        .clip("A".to_string(), vec![[3.0, 4.0]]);
    let mut set = NoesisClip::new();
    set.set("A".to_string(), vec![[1.0f32, 2.0]]);
    set.set("A".to_string(), vec![[3.0, 4.0]]);
    assert_eq!(built.clips.entries(), set.clips.entries());
    assert_eq!(built.clips.get("A"), Some(&vec![[3.0, 4.0]]));
}

#[test]
fn removing_a_name_takes_its_polygon_away() {
    let mut c = NoesisClip::new()
        .clip("A".to_string(), vec![[1.0f32, 2.0]])
        .clip("B".to_string(), vec![[3.0, 4.0]])
        .clip("C".to_string(), vec![]);
    assert_eq!(c.clips.remove(&"B".to_string()), Some(vec![[3.0, 4.0]]));
    assert_eq!(c.clips.remove(&"B".to_string()), None);
    assert_eq!(c.clips.len(), 2);
    assert!(c.clips.get("B").is_none());
    assert_eq!(c.clips.get("A"), Some(&vec![[1.0, 2.0]]));
    assert_eq!(c.clips.get("C"), Some(&vec![]));
}

#[test]
fn clone_holds_the_same_polygons() {
    let c = NoesisClip::new()
        .clip("A".to_string(), vec![[1.0f32, 2.0], [3.0, 4.0]])
        .clip("B".to_string(), vec![]);
    let copy = c.clone();
    assert_eq!(copy.clips.len(), 2);
    assert_eq!(copy.clips.get("A"), Some(&vec![[1.0, 2.0], [3.0, 4.0]]));
    assert_eq!(copy.clips.get("B"), Some(&vec![]));
}

#[test]
fn polygon_size_decides_the_action() {
    let p = [0.0f32, 0.0];
    assert_eq!(clip_action::<[f32; 2]>(&vec![]), ClipAction::Clear);
    assert_eq!(clip_action(&vec![p]), ClipAction::Skip);
    assert_eq!(clip_action(&vec![p, p]), ClipAction::Skip);
    assert_eq!(clip_action(&vec![p, p, p]), ClipAction::Assign);
    assert_eq!(clip_action(&vec![p, p, p, p]), ClipAction::Assign);
}

#[test]
fn every_name_of_a_bridge_is_written_once() {
    let p = [0.0f32, 0.0];
    let c = NoesisClip::new()
        .clip("Cleared".to_string(), vec![p])
        .clip("Line".to_string(), vec![p, p])
        .clip("Panel".to_string(), vec![p, p, p])
        .clip("Cleared".to_string(), vec![]);
    let writes = clip_writes(&c);
    assert_eq!(writes.len(), 3);
    assert!(writes.contains(&("Cleared".to_string(), ClipAction::Clear)));
    assert!(writes.contains(&("Line".to_string(), ClipAction::Skip)));
    assert!(writes.contains(&("Panel".to_string(), ClipAction::Assign)));
    assert!(clip_writes(&NoesisClip::<[f32; 2]>::new()).is_empty());
}

fn view(entity: u32, changed: bool, scene_rebuilt: bool, panel_mounted: bool) -> ClipView<u32> {
    ClipView { entity, changed, scene_rebuilt, panel_mounted }
}

#[test]
fn clips_are_applied_when_something_happened_to_the_view() {
    let views = vec![
        view(1, false, false, false),
        view(2, true, false, false),
        view(3, false, true, false),
        view(4, false, false, true),
        view(5, false, false, false),
        view(6, true, true, true),
    ];
    assert_eq!(sync_clip_bridge(true, &views), vec![2, 3, 4, 6]);
}

#[test]
fn no_render_state_means_no_clip_is_applied() {
    let views = vec![view(1, true, true, true)];
    assert_eq!(sync_clip_bridge(false, &views), Vec::<u32>::new());
    assert_eq!(sync_clip_bridge(true, &Vec::<ClipView<u32>>::new()), Vec::<u32>::new());
}
