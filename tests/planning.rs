use yolo_rename::layout::plan_split;
use yolo_rename::name::{classify_file, FileKind};
use yolo_rename::plan::{
    plan_image_renames, plan_label_renames, plan_paired_renames, LabelNameMap, PlanError, Rename,
};

fn names(v: &[&str]) -> Vec<String> {
    v.iter().map(|s| s.to_string()).collect()
}

fn moves(v: &[Rename]) -> Vec<(String, String)> {
    v.iter().map(|r| (r.from.clone(), r.to.clone())).collect()
}

fn pairs(v: &[(&str, &str)]) -> Vec<(String, String)> {
    v.iter().map(|(a, b)| (a.to_string(), b.to_string())).collect()
}

#[test]
fn mixed_folder_is_numbered_in_name_order() {
    let listing = names(&["b.png", "b.txt", "a.jpg", "a.txt"]);
    let (images, map) = plan_image_renames(&listing).unwrap();
    assert_eq!(moves(&images), pairs(&[("a.jpg", "img_0001.jpg"), ("b.png", "img_0002.png")]));
    let labels = plan_label_renames(&listing, &map).unwrap();
    assert_eq!(
        moves(&labels.renames),
        pairs(&[("a.txt", "img_0001.txt"), ("b.txt", "img_0002.txt")])
    );
    assert!(labels.orphans.is_empty());
}

#[test]
fn mixed_flat_folder_is_numbered_in_name_order() {
    let listing = names(&["b.png", "b.txt", "a.jpg", "a.txt"]);
    let plan = plan_paired_renames(&listing);
    assert_eq!(
        moves(&plan),
        pairs(&[
            ("a.jpg", "img_0001.jpg"),
            ("a.txt", "img_0001.txt"),
            ("b.png", "img_0002.png"),
            ("b.txt", "img_0002.txt"),
        ])
    );
}

#[test]
fn loose_split_files_are_classified_then_renamed() {
    assert_eq!(classify_file("x.jpg"), FileKind::Image);
    assert_eq!(classify_file("x.txt"), FileKind::Label);
    let plan = plan_split(&names(&["x.jpg"]), &names(&["x.txt"])).unwrap();
    assert_eq!(moves(&plan.images), pairs(&[("x.jpg", "img_0001.jpg")]));
    assert_eq!(moves(&plan.labels.renames), pairs(&[("x.txt", "img_0001.txt")]));
}

#[test]
fn classification_ignores_case_and_leaves_other_files() {
    assert_eq!(classify_file("A.JpEg"), FileKind::Image);
    assert_eq!(classify_file("b.PNG"), FileKind::Image);
    assert_eq!(classify_file("c.TXT"), FileKind::Label);
    assert_eq!(classify_file("notes.md"), FileKind::Other);
    assert_eq!(classify_file("README"), FileKind::Other);
    assert_eq!(classify_file(".jpg"), FileKind::Other);
}

#[test]
fn renamed_split_is_a_fixed_point() {
    let plan = plan_split(&names(&["img_0001.jpg"]), &names(&["img_0001.txt"])).unwrap();
    assert_eq!(moves(&plan.images), pairs(&[("img_0001.jpg", "img_0001.jpg")]));
    assert_eq!(moves(&plan.labels.renames), pairs(&[("img_0001.txt", "img_0001.txt")]));
}

#[test]
fn renamed_flat_folder_is_a_fixed_point() {
    let plan = plan_paired_renames(&names(&["img_0001.jpg", "img_0001.txt"]));
    assert_eq!(
        moves(&plan),
        pairs(&[("img_0001.jpg", "img_0001.jpg"), ("img_0001.txt", "img_0001.txt")])
    );
}

#[test]
fn stray_annotation_is_reported_and_takes_no_index() {
    let plan = plan_split(&names(&["b.jpg", "c.png"]), &names(&["b.txt", "c.txt", "stray.txt"]))
        .unwrap();
    assert_eq!(moves(&plan.images), pairs(&[("b.jpg", "img_0001.jpg"), ("c.png", "img_0002.png")]));
    assert_eq!(
        moves(&plan.labels.renames),
        pairs(&[("b.txt", "img_0001.txt"), ("c.txt", "img_0002.txt")])
    );
    assert_eq!(plan.labels.orphans, names(&["stray.txt"]));
}

#[test]
fn image_without_annotation_is_skipped_in_flat_folder() {
    let plan = plan_paired_renames(&names(&["a.jpg", "b.jpg", "b.txt", "c.png", "c.txt"]));
    assert_eq!(
        moves(&plan),
        pairs(&[
            ("b.jpg", "img_0001.jpg"),
            ("b.txt", "img_0001.txt"),
            ("c.png", "img_0002.png"),
            ("c.txt", "img_0002.txt"),
        ])
    );
}

#[test]
fn numbering_follows_character_order_not_numeric_order() {
    let (images, _) = plan_image_renames(&names(&["9.jpg", "10.jpg", "2.jpg", "B.jpg", "a.jpg"]))
        .unwrap();
    assert_eq!(
        moves(&images),
        pairs(&[
            ("10.jpg", "img_0001.jpg"),
            ("2.jpg", "img_0002.jpg"),
            ("9.jpg", "img_0003.jpg"),
            ("B.jpg", "img_0004.jpg"),
            ("a.jpg", "img_0005.jpg"),
        ])
    );
}

#[test]
fn image_extension_case_is_kept() {
    let (images, map) = plan_image_renames(&names(&["Shot.JPG", "notes.md", "dir"])).unwrap();
    assert_eq!(moves(&images), pairs(&[("Shot.JPG", "img_0001.JPG")]));
    assert_eq!(map.get("Shot.txt").unwrap(), "img_0001.txt");
    assert_eq!(map.len(), 1);
}

#[test]
fn empty_folder_plans_nothing() {
    let (images, map) = plan_image_renames(&Vec::new()).unwrap();
    assert!(images.is_empty());
    assert_eq!(map.len(), 0);
    let labels = plan_label_renames(&Vec::new(), &map).unwrap();
    assert!(labels.renames.is_empty());
    assert!(labels.orphans.is_empty());
    assert!(plan_paired_renames(&Vec::new()).is_empty());
}

#[test]
fn shared_stem_maps_annotation_to_last_image() {
    let listing = names(&["a.png", "a.jpg", "a.txt"]);
    let (images, map) = plan_image_renames(&listing).unwrap();
    assert_eq!(moves(&images), pairs(&[("a.jpg", "img_0001.jpg"), ("a.png", "img_0002.png")]));
    assert_eq!(map.len(), 1);
    let labels = plan_label_renames(&listing, &map).unwrap();
    assert_eq!(moves(&labels.renames), pairs(&[("a.txt", "img_0002.txt")]));
}

#[test]
fn shared_stem_in_flat_folder_pairs_first_image_only() {
    let plan = plan_paired_renames(&names(&["a.png", "a.jpg", "a.txt"]));
    assert_eq!(moves(&plan), pairs(&[("a.jpg", "img_0001.jpg"), ("a.txt", "img_0001.txt")]));
}

#[test]
fn annotation_created_by_an_earlier_move_does_not_pair() {
    let plan = plan_paired_renames(&names(&["a.jpg", "a.txt", "img_0001.png"]));
    assert_eq!(moves(&plan), pairs(&[("a.jpg", "img_0001.jpg"), ("a.txt", "img_0001.txt")]));
}

#[test]
fn annotation_extension_is_case_sensitive_for_planning() {
    let listing = names(&["a.jpg", "a.TXT"]);
    let (_, map) = plan_image_renames(&listing).unwrap();
    let labels = plan_label_renames(&listing, &map).unwrap();
    assert!(labels.renames.is_empty());
    assert!(labels.orphans.is_empty());
    assert!(plan_paired_renames(&listing).is_empty());
}

#[test]
fn duplicate_annotation_target_is_refused() {
    let (_, map) = plan_image_renames(&names(&["a.jpg"])).unwrap();
    match plan_label_renames(&names(&["a.txt", "a.txt"]), &map) {
        Err(PlanError::DuplicateTarget(t)) => assert_eq!(t, "img_0001.txt"),
        other => panic!("expected a duplicate target, got {:?}", other),
    }
    assert!(plan_split(&names(&["a.jpg"]), &names(&["a.txt", "a.txt"])).is_err());
}

#[test]
fn label_name_map_replaces_values() {
    let mut m = LabelNameMap::new();
    assert_eq!(m.len(), 0);
    assert!(m.get("a.txt").is_none());
    m.insert("a.txt".to_string(), "img_0001.txt".to_string());
    m.insert("b.txt".to_string(), "img_0002.txt".to_string());
    m.insert("a.txt".to_string(), "img_0003.txt".to_string());
    assert_eq!(m.len(), 2);
    assert_eq!(m.get("a.txt").unwrap(), "img_0003.txt");
    assert_eq!(m.get("b.txt").unwrap(), "img_0002.txt");
    assert!(m.get("c.txt").is_none());
}

#[test]
fn unpaired_image_leaves_the_plan_as_if_absent() {
    let without = plan_paired_renames(&names(&["b.jpg", "b.txt", "c.png", "c.txt"]));
    let with = plan_paired_renames(&names(&["b.jpg", "b.txt", "a.jpg", "c.png", "c.txt"]));
    assert_eq!(moves(&with), moves(&without));
}
