use yolo_rename::cli::{is_split_name, mode_token, parse_args, splits, ArgsError, Mode};
use yolo_rename::index::{format_index, image_target_name, label_target_name};
use yolo_rename::name::{extension, find_last_dot, is_image_ext, is_image_file, is_label_file, label_key};
use yolo_rename::order::{name_le_exec, sort_names};

fn names(v: &[&str]) -> Vec<String> {
    v.iter().map(|s| s.to_string()).collect()
}

#[test]
fn index_is_padded_to_four_digits() {
    assert_eq!(format_index(0), "0000");
    assert_eq!(format_index(1), "0001");
    assert_eq!(format_index(42), "0042");
    assert_eq!(format_index(9999), "9999");
}

#[test]
fn index_widens_past_four_digits() {
    assert_eq!(format_index(10000), "10000");
    assert_eq!(format_index(123456), "123456");
}

#[test]
fn target_names() {
    assert_eq!(image_target_name(7, "JPG"), "img_0007.JPG");
    assert_eq!(image_target_name(12, "png"), "img_0012.png");
    assert_eq!(label_target_name(3), "img_0003.txt");
    assert_eq!(label_target_name(10001), "img_10001.txt");
}

#[test]
fn extensions_follow_the_last_dot() {
    assert_eq!(extension("a.tar.gz"), Some("gz"));
    assert_eq!(extension("photo.jpg"), Some("jpg"));
    assert_eq!(extension("a."), Some(""));
    assert_eq!(extension(".hidden"), None);
    assert_eq!(extension("noext"), None);
    assert_eq!(find_last_dot("a.b.c"), Some(3));
    assert_eq!(find_last_dot("abc"), None);
}

#[test]
fn image_and_label_names() {
    assert!(is_image_ext("jpg"));
    assert!(is_image_ext("JPEG"));
    assert!(is_image_ext("Png"));
    assert!(!is_image_ext("gif"));
    assert!(!is_image_ext("jpgx"));
    assert!(is_image_file("a.JpEg"));
    assert!(!is_image_file("jpg"));
    assert!(is_label_file("a.txt"));
    assert!(!is_label_file("a.TXT"));
    assert!(!is_label_file(".txt"));
}

#[test]
fn label_key_keeps_the_stem() {
    assert_eq!(label_key("photo.v2.jpg"), "photo.v2.txt");
    assert_eq!(label_key("A.PNG"), "A.txt");
    assert_eq!(label_key("noext"), "noext.txt");
    assert_eq!(label_key(".hidden"), ".hidden.txt");
}

#[test]
fn name_order_is_by_character() {
    assert!(name_le_exec("a", "b"));
    assert!(!name_le_exec("b", "a"));
    assert!(name_le_exec("B", "a"));
    assert!(name_le_exec("a", "ab"));
    assert!(!name_le_exec("ab", "a"));
    assert!(name_le_exec("same", "same"));
    assert!(name_le_exec("", ""));
}

#[test]
fn sorting_names() {
    let sorted = sort_names(names(&["b", "a", "C", "ab", "a"]));
    assert_eq!(sorted, names(&["C", "a", "a", "ab", "b"]));
    assert!(sort_names(Vec::new()).is_empty());
}

#[test]
fn mode_tokens() {
    assert_eq!(mode_token(&"v4".to_string()), Some(Mode::V4));
    assert_eq!(mode_token(&"--v4".to_string()), Some(Mode::V4));
    assert_eq!(mode_token(&"v8".to_string()), Some(Mode::V8));
    assert_eq!(mode_token(&"--v8".to_string()), Some(Mode::V8));
    assert_eq!(mode_token(&"v5".to_string()), None);
}

#[test]
fn arguments_without_folders_are_refused() {
    assert_eq!(parse_args(Vec::new()).unwrap_err(), ArgsError::NoArguments);
    assert_eq!(parse_args(names(&["v8"])).unwrap_err(), ArgsError::NoFolder);
}

#[test]
fn trailing_mode_token_is_taken() {
    let inv = parse_args(names(&["d1", "d2", "--v8"])).unwrap();
    assert_eq!(inv.mode, Mode::V8);
    assert_eq!(inv.folders, names(&["d1", "d2"]));
    let inv = parse_args(names(&["d1", "v4"])).unwrap();
    assert_eq!(inv.mode, Mode::V4);
    assert_eq!(inv.folders, names(&["d1"]));
}

#[test]
fn unrecognized_last_argument_is_a_folder() {
    let inv = parse_args(names(&["d1", "v9"])).unwrap();
    assert_eq!(inv.mode, Mode::V4);
    assert_eq!(inv.folders, names(&["d1", "v9"]));
}

#[test]
fn split_names_are_known() {
    assert_eq!(splits(), names(&["train", "valid", "test"]));
    assert!(is_split_name(&"train".to_string()));
    assert!(is_split_name(&"valid".to_string()));
    assert!(is_split_name(&"test".to_string()));
    assert!(!is_split_name(&"images".to_string()));
}
