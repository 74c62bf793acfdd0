use tag_fs::{Filesystem, StoreError, Tag};

fn names(list: &[&str]) -> Vec<String> {
    list.iter().map(|s| s.to_string()).collect()
}

fn resolved(path: &str) -> Option<String> {
    Some(path.to_string())
}

#[test]
fn empty_filesystem() {
    let empty = Filesystem::new();

    assert_eq!(empty.return_tags().is_none(), Filesystem::new().return_tags().is_none());
    assert_eq!(None, Filesystem::new().return_tags());
    assert_eq!(empty, Filesystem::new());
}

#[test]
fn creating_tags() {
    let mut test = Filesystem::new();
    let _ = test.create_tag("test");

    assert_eq!(Some(names(&["test"])), test.return_tags());
    assert_eq!(Some(&Tag::new()), test.tag("test"));
    assert!(test.tag("test").unwrap().is_empty());
    assert_ne!(Filesystem::new(), test);
}

#[test]
fn creating_two_same_tags() {
    let mut f = Filesystem::new();
    let _ = f.create_tag("test");
    let test = f.create_tag("test");

    assert_eq!(Err(StoreError::AlreadyExists), test);
}

#[test]
fn creating_a_tag_twice_keeps_the_store() {
    let mut once = Filesystem::new();
    assert_eq!(Ok(()), once.create_tag("T"));
    let _ = once.add_tags_to_file(names(&["./test", "T"]), resolved("/srv/files/test"));

    let mut twice = Filesystem::new();
    assert_eq!(Ok(()), twice.create_tag("T"));
    let _ = twice.add_tags_to_file(names(&["./test", "T"]), resolved("/srv/files/test"));
    assert_eq!(Err(StoreError::AlreadyExists), twice.create_tag("T"));

    assert_eq!(once, twice);
    assert_eq!(Some(names(&["T"])), twice.return_tags());
    assert!(twice.tag("T").unwrap().contains("test"));
}

#[test]
fn adding_tag_to_f() {
    let mut test = Filesystem::new();
    let _ = test.create_tag("test1");
    let _ = test.create_tag("test2");
    let unknown = test.add_tags_to_file(names(&["./test", "test2"]), resolved("/srv/files/test"));

    assert_eq!(Ok(Vec::<String>::new()), unknown);
    assert!(test.tag("test1").unwrap().is_empty());
    let mut tag = Tag::new();
    tag.add_file("./test", "/srv/files/test");
    assert_eq!(Some(&tag), test.tag("test2"));
    assert_eq!(Some("/srv/files/test".to_string()), test.tag("test2").unwrap().path_of("test"));
}

#[test]
fn adding_tags_to_f() {
    let mut tag = Tag::new();
    tag.add_file("./test", "/srv/files/test");

    let mut test = Filesystem::new();
    let _ = test.create_tag("test1");
    let _ = test.create_tag("test2");
    let _ = test.add_tags_to_file(names(&["./test", "test1", "test2"]), resolved("/srv/files/test"));

    assert_eq!(Some(&tag), test.tag("test1"));
    assert_eq!(Some(&tag), test.tag("test2"));

    let mut filesystem = Filesystem::new();
    let _ = filesystem.create_tag("test2");
    let _ = filesystem.create_tag("test1");
    let _ = filesystem.add_tags_to_file(names(&["./test", "test2"]), resolved("/srv/files/test"));
    let _ = filesystem.add_tags_to_file(names(&["./test", "test1"]), resolved("/srv/files/test"));
    assert_eq!(filesystem, test);
}

#[test]
fn removing_tags_from_f() {
    let mut filesystem = Filesystem::new();
    let _ = filesystem.create_tag("test1");
    let _ = filesystem.create_tag("test2");
    let _ = filesystem.add_tags_to_file(names(&["./test", "test1"]), resolved("/srv/files/test"));

    let mut test = Filesystem::new();
    let _ = test.create_tag("test1");
    let _ = test.create_tag("test2");
    let test_vec = names(&["./test", "test1", "test2"]);
    let test_vec2 = names(&["./test", "test2"]);
    let _ = test.add_tags_to_file(test_vec, resolved("/srv/files/test"));
    let unknown = test.remove_tags_from_file(test_vec2);

    assert_eq!(Vec::<String>::new(), unknown);
    assert_eq!(filesystem, test);
    assert!(test.tag("test1").unwrap().contains("test"));
    assert!(!test.tag("test2").unwrap().contains("test"));
}

#[test]
fn removing_all_tags_from_f() {
    let mut filesystem = Filesystem::new();
    let _ = filesystem.create_tag("test1");
    let _ = filesystem.create_tag("test2");

    let mut test = Filesystem::new();
    let _ = test.create_tag("test1");
    let _ = test.create_tag("test2");
    let _ = test.add_tags_to_file(names(&["./test", "test1", "test2"]), resolved("/srv/files/test"));
    assert_ne!(filesystem, test);
    test.untag_file(names(&["./test"]));

    assert_eq!(filesystem, test);
    assert_eq!(None, test.return_files());
}

#[test]
fn untagging_ignores_the_names_that_follow_the_path() {
    let mut test = Filesystem::new();
    let _ = test.create_tag("test1");
    let _ = test.create_tag("test2");
    let _ = test.create_tag("test3");
    let _ = test.add_tags_to_file(names(&["./test", "test1", "test2"]), resolved("/srv/files/test"));
    let _ = test.add_tags_to_file(names(&["./other", "test2", "test3"]), resolved("/srv/files/other"));
    test.untag_file(names(&["dir/test", "test3", "nothing"]));

    assert!(test.tag("test1").unwrap().is_empty());
    assert_eq!(names(&["other"]), test.tag("test2").unwrap().filenames());
    assert_eq!(names(&["other"]), test.tag("test3").unwrap().filenames());
    assert_eq!(Some(names(&["other"])), test.return_files());
}

#[test]
fn filtering_one_tag() {
    let tag: Vec<String> = names(&["test", "test2"]);

    let mut test = Filesystem::new();
    let _ = test.create_tag("tag1");

    let _ = test.add_tags_to_file(names(&["./test", "tag1"]), resolved("/srv/files/test"));
    let _ = test.add_tags_to_file(names(&["./test2", "tag1"]), resolved("/srv/files/test2"));

    let mut test_tag = test.filter(names(&["tag1"])).unwrap();
    test_tag.sort();

    assert_eq!(tag, test_tag);
}

fn three_tags() -> Filesystem {
    let mut test = Filesystem::new();
    let _ = test.create_tag("tag1");
    let _ = test.create_tag("tag2");
    let _ = test.create_tag("tag3");

    let _ = test.add_tags_to_file(names(&["./test", "tag1", "tag2"]), resolved("/srv/files/test"));
    let _ = test.add_tags_to_file(names(&["./test2", "tag1", "tag3"]), resolved("/srv/files/test2"));
    test
}

#[test]
fn filtering_twoplus_tags() {
    let tag: Vec<String> = names(&["test"]);

    let test = three_tags();
    let test = test.filter(names(&["tag1", "tag2"])).unwrap();

    assert_eq!(tag, test);
}

#[test]
fn filtering_pairs_of_tags() {
    let test = three_tags();

    assert_eq!(Ok(names(&["test"])), test.filter(names(&["tag1", "tag2"])));
    assert_eq!(Ok(names(&["test"])), test.filter(names(&["tag2", "tag1"])));
    assert_eq!(Ok(names(&["test2"])), test.filter(names(&["tag1", "tag3"])));
    assert_eq!(Ok(names(&[])), test.filter(names(&["tag2", "tag3"])));
    assert_eq!(Ok(names(&[])), test.filter(names(&["tag1", "tag2", "tag3"])));
}

#[test]
fn filtering_a_repeated_tag() {
    let test = three_tags();
    let mut found = test.filter(names(&["tag1", "tag1"])).unwrap();
    found.sort();

    assert_eq!(names(&["test", "test2"]), found);
}

#[test]
fn filtering_no_tags_finds_nothing() {
    let test = three_tags();

    assert_eq!(Ok(names(&[])), test.filter(names(&[])));
}

#[test]
fn filtering_an_unknown_tag() {
    let test = three_tags();

    assert_eq!(Err(StoreError::NotFound), test.filter(names(&["tag4"])));
    assert_eq!(Err(StoreError::NotFound), test.filter(names(&["tag1", "tag4"])));
    assert_eq!(Err(StoreError::NotFound), test.filter(names(&["tag4", "tag1", "tag2"])));
    assert_eq!(Err(StoreError::NotFound), Filesystem::new().filter(names(&["tag1"])));
}

#[test]
fn return_files() {
    let files: Vec<String> = names(&["test", "test2"]);

    let test = three_tags();
    let mut test = test.return_files().unwrap();
    test.sort();

    assert_eq!(files, test);

    let files: Option<Vec<String>> = None;

    let test = Filesystem::new();
    let test = test.return_files();

    assert_eq!(files, test);
}

#[test]
fn return_files_with_empty_tags_only() {
    let mut test = Filesystem::new();
    let _ = test.create_tag("tag1");
    let _ = test.create_tag("tag2");

    assert_eq!(None, test.return_files());
}

#[test]
fn return_tags() {
    let tags: Vec<String> = names(&["test1", "test2"]);

    let mut test = Filesystem::new();
    let _ = test.create_tag("test1");
    let _ = test.create_tag("test2");
    let mut test = test.return_tags().unwrap();
    test.sort();

    assert_eq!(tags, test);
}

#[test]
fn unresolved_path_changes_nothing() {
    let mut test = three_tags();
    let outcome = test.add_tags_to_file(names(&["./missing", "tag1", "tag2"]), None);

    assert_eq!(Err(StoreError::PathUnresolvable), outcome);
    assert_eq!(three_tags(), test);
}

#[test]
fn unknown_tags_are_reported_in_order() {
    let mut test = three_tags();
    let outcome = test.add_tags_to_file(
        names(&["./new", "zeta", "tag3", "alpha", "zeta"]),
        resolved("/srv/files/new"),
    );

    assert_eq!(Ok(names(&["zeta", "alpha", "zeta"])), outcome);
    assert!(test.tag("tag3").unwrap().contains("new"));
    assert!(!test.tag("tag1").unwrap().contains("new"));
    assert!(test.tag("zeta").is_none());

    let unknown = test.remove_tags_from_file(names(&["./new", "beta", "tag3", "alpha"]));
    assert_eq!(names(&["beta", "alpha"]), unknown);
    assert_eq!(three_tags(), test);
}

#[test]
fn removing_a_file_that_was_never_tagged() {
    let mut test = three_tags();
    let unknown = test.remove_tags_from_file(names(&["./test2", "tag2"]));

    assert_eq!(Vec::<String>::new(), unknown);
    assert_eq!(three_tags(), test);
}

#[test]
fn tagging_a_file_twice_keeps_one_entry() {
    let mut test = three_tags();
    let _ = test.add_tags_to_file(names(&["./test", "tag2"]), resolved("/srv/files/test"));
    let _ = test.add_tags_to_file(names(&["./test", "tag2", "tag2"]), resolved("/srv/files/test"));

    assert_eq!(names(&["test"]), test.tag("tag2").unwrap().filenames());
    assert_eq!(three_tags(), test);
}

#[test]
fn a_later_path_replaces_an_earlier_one() {
    let mut test = three_tags();
    let _ = test.add_tags_to_file(names(&["elsewhere/test", "tag2"]), resolved("/srv/elsewhere/test"));

    assert_eq!(names(&["test"]), test.tag("tag2").unwrap().filenames());
    assert_eq!(Some("/srv/elsewhere/test".to_string()), test.tag("tag2").unwrap().path_of("test"));
    assert_eq!(Some("/srv/files/test".to_string()), test.tag("tag1").unwrap().path_of("test"));
    assert_ne!(three_tags(), test);
}

#[test]
fn stores_are_equal_whatever_the_order_of_creation() {
    let mut a = Filesystem::new();
    let _ = a.create_tag("x");
    let _ = a.create_tag("y");
    let _ = a.add_tags_to_file(names(&["f", "x"]), resolved("/f"));
    let _ = a.add_tags_to_file(names(&["g", "x"]), resolved("/g"));

    let mut b = Filesystem::new();
    let _ = b.create_tag("y");
    let _ = b.create_tag("x");
    let _ = b.add_tags_to_file(names(&["g", "x"]), resolved("/g"));
    let _ = b.add_tags_to_file(names(&["f", "x"]), resolved("/f"));

    assert_eq!(a, b);
    assert!(a.included_in(&b));

    let _ = b.create_tag("z");
    assert_ne!(a, b);
    assert!(a.included_in(&b));
    assert!(!b.included_in(&a));

    let _ = a.create_tag("z");
    let _ = b.add_tags_to_file(names(&["h", "z"]), resolved("/h"));
    assert_ne!(a, b);
    assert!(!a.included_in(&b));
    assert!(!b.included_in(&a));
}

#[test]
fn error_messages() {
    assert_eq!("tag already exists", StoreError::AlreadyExists.message());
    assert_eq!("tag not found", StoreError::NotFound.message());
    assert_eq!("path cannot be resolved", StoreError::PathUnresolvable.message());
}

#[test]
fn a_saved_store_loads_equal() {
    let test = three_tags();
    let saved = test.records();

    assert_eq!(3, saved.len());
    assert_eq!(test, Filesystem::from_records(&saved));
    assert_eq!(Filesystem::new(), Filesystem::from_records(&Filesystem::new().records()));
    assert_ne!(Filesystem::new(), Filesystem::from_records(&saved));
}

#[test]
fn loading_records() {
    let pair = |a: &str, b: &str| (a.to_string(), b.to_string());
    let records = vec![
        ("tag1".to_string(), vec![pair("test", "/old/test"), pair("test2", "/srv/files/test2")]),
        ("tag2".to_string(), vec![]),
        ("tag3".to_string(), vec![pair("test2", "/srv/files/test2")]),
        ("tag2".to_string(), vec![pair("test", "/srv/files/test")]),
        ("tag1".to_string(), vec![
            pair("test", "/old/test"),
            pair("test2", "/srv/files/test2"),
            pair("test", "/srv/files/test"),
        ]),
    ];

    let loaded = Filesystem::from_records(&records);
    assert_eq!(three_tags(), loaded);
    assert_eq!(Some("/srv/files/test".to_string()), loaded.tag("tag1").unwrap().path_of("test"));
}
