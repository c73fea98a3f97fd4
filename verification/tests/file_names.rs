use part::{base_name, file_stem, info_file_name, part_file_name};

#[test]
fn base_name_strips_directories() {
    assert_eq!(base_name("dir/sub/f.txt"), "f.txt");
    assert_eq!(base_name("f.txt"), "f.txt");
    assert_eq!(base_name("/f"), "f");
    assert_eq!(base_name("dir/"), "");
}

#[test]
fn file_stem_strips_one_extension() {
    assert_eq!(file_stem("f.txt.partinfo"), "f.txt");
    assert_eq!(file_stem("f.txt"), "f");
    assert_eq!(file_stem("noext"), "noext");
    assert_eq!(file_stem(".partinfo"), ".partinfo");
}

#[test]
fn part_and_info_file_names() {
    assert_eq!(part_file_name("f.txt", 0), "f.txt.0.part");
    assert_eq!(part_file_name("f.txt", 12), "f.txt.12.part");
    assert_eq!(part_file_name("f.txt", 105), "f.txt.105.part");
    assert_eq!(info_file_name("f.txt"), "f.txt.partinfo");
}
