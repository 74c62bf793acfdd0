use tag_fs::Tag;

#[test]
fn empty_tag() {
    let empty_tag = Tag::new();

    assert_eq!(empty_tag.is_empty(), Tag::new().is_empty());
    assert!(Tag::new().is_empty());
    assert_eq!(Vec::<String>::new(), Tag::new().filenames());
}

#[test]
fn adding_file_to_tag() {
    let abs = "/srv/files/test".to_string();

    let mut test = Tag::new();
    test.add_file("./test", "/srv/files/test");

    assert_eq!(vec!["test".to_string()], test.filenames());
    assert_eq!(Some(abs), test.path_of("test"));
    assert!(!test.is_empty());
    assert_ne!(Tag::new(), test);
}

#[test]
fn adding_file_twice() {
    let mut tag = Tag::new();
    tag.add_file("./test", "/srv/files/test");

    let mut test = Tag::new();
    test.add_file("./test", "/srv/files/test");
    test.add_file("./test", "/srv/files/test");

    assert_eq!(tag, test);
    assert_eq!(vec!["test".to_string()], test.filenames());
}

#[test]
fn removing_file() {
    let mut tag = Tag::new();
    tag.add_file("./test", "/srv/files/test");

    let mut test = Tag::new();
    test.add_file("./test", "/srv/files/test");
    test.add_file("./test2", "/srv/files/test2");
    assert_ne!(tag, test);
    test.remove_file("./test2");

    assert_eq!(tag, test);
}

#[test]
fn removing_file_twice() {
    let mut tag = Tag::new();
    tag.add_file("./test", "/srv/files/test");

    let mut test = Tag::new();
    test.add_file("./test", "/srv/files/test");
    test.add_file("./test2", "/srv/files/test2");

    test.remove_file("./test2");
    test.remove_file("./test2");

    assert_eq!(tag, test);
}

#[test]
fn filename() {
    let filename = "test";

    let mut test = Tag::new();
    test.add_file("./test", "/srv/files/test");
    let test = test.filenames();
    let test = test.iter().nth(0).unwrap();

    assert_eq!(
        filename,
        Tag::get_filename("D:\\programming\\rust\\the-tagging-project\\tag_fs\\test")
    );
    assert_eq!(filename, test);
}

#[test]
fn filename_is_the_last_component() {
    assert_eq!("c.txt", Tag::get_filename("/a/b/c.txt"));
    assert_eq!("c.txt", Tag::get_filename("c.txt"));
    assert_eq!("c", Tag::get_filename("a\\b/c"));
    assert_eq!("c", Tag::get_filename("a/b\\c"));
    assert_eq!("", Tag::get_filename("a/b/"));
    assert_eq!("", Tag::get_filename(""));
    assert_eq!("", Tag::get_filename("/"));
    assert_eq!("..", Tag::get_filename("a/.."));
    assert_eq!("é.txt", Tag::get_filename("données/é.txt"));
}

#[test]
fn files_are_found_by_filename() {
    let mut test = Tag::new();
    test.add_file("a/one", "/srv/a/one");
    test.add_file("b/two", "/srv/b/two");

    assert!(test.contains("one"));
    assert!(test.contains("two"));
    assert!(!test.contains("a/one"));
    assert!(!test.contains("three"));
    assert_eq!(None, test.path_of("three"));
    assert_eq!(Some("/srv/b/two".to_string()), test.path_of("two"));
    assert_eq!(vec!["one".to_string(), "two".to_string()], test.filenames());

    test.remove_file("elsewhere\\one");
    assert!(!test.contains("one"));
    assert_eq!(vec!["two".to_string()], test.filenames());
}

#[test]
fn same_filename_overwrites_the_path() {
    let mut test = Tag::new();
    test.add_file("a/one", "/srv/a/one");
    test.add_file("b/one", "/srv/b/one");

    assert_eq!(vec!["one".to_string()], test.filenames());
    assert_eq!(Some("/srv/b/one".to_string()), test.path_of("one"));
}

#[test]
fn tags_are_equal_whatever_the_order_of_files() {
    let mut a = Tag::new();
    a.add_file("one", "/one");
    a.add_file("two", "/two");

    let mut b = Tag::new();
    b.add_file("two", "/two");
    b.add_file("one", "/one");

    assert_eq!(a, b);

    let mut c = Tag::new();
    c.add_file("two", "/two");
    c.add_file("one", "/elsewhere/one");
    assert_ne!(a, c);
    assert!(!a.included_in(&c));

    let mut d = Tag::new();
    d.add_file("one", "/one");
    assert_ne!(a, d);
    assert!(d.included_in(&a));
    assert!(!a.included_in(&d));
}

#[test]
fn entries_of_a_tag() {
    let mut test = Tag::new();
    test.add_file("a/one", "/srv/a/one");
    test.add_file("b/two", "/srv/b/two");
    test.insert("three".to_string(), "/srv/c/three".to_string());

    let pair = |a: &str, b: &str| (a.to_string(), b.to_string());
    let entries = test.entries();
    assert_eq!(
        vec![pair("one", "/srv/a/one"), pair("two", "/srv/b/two"), pair("three", "/srv/c/three")],
        entries
    );
    assert_eq!(test, Tag::from_entries(&entries));
    assert_eq!(Tag::new(), Tag::from_entries(&Vec::new()));

    let repeated = vec![pair("one", "/first"), pair("one", "/second")];
    let tag = Tag::from_entries(&repeated);
    assert_eq!(vec![pair("one", "/second")], tag.entries());
}
