use roslibrust::util::{find_package_from_path, recursive_find_msg_files, recursive_find_srv_files,
    recursive_find_action_files, FileEntry};

fn strings(parts: &[&str]) -> Vec<String> {
    parts.iter().map(|p| p.to_string()).collect()
}

#[test]
fn package_from_marked_ancestor() {
    let components = strings(&["ws", "src", "my_pkg", "msg", "Foo.msg"]);
    let markers = vec![false, false, true, false, false];
    assert_eq!(find_package_from_path(&components, &markers), "my_pkg");
}

#[test]
fn package_prefers_nearest_marker() {
    // When several ancestors hold a package.xml, the first one met walking
    // upward from the file names the package.
    let components = strings(&["ws", "outer", "inner", "Foo.msg"]);
    let markers = vec![false, true, true, false];
    assert_eq!(find_package_from_path(&components, &markers), "inner");
}

#[test]
fn finds_msg_files_with_packages() {
    let entries = vec![
        FileEntry {
            components: strings(&["ws", "pkg_a", "msg", "Pose.msg"]),
            has_pkg_marker: vec![false, true, false, false],
        },
        FileEntry {
            components: strings(&["ws", "pkg_a", "README.md"]),
            has_pkg_marker: vec![false, true, false],
        },
        FileEntry {
            components: strings(&["ws", "pkg_b", "srv", "Add.srv"]),
            has_pkg_marker: vec![false, true, false, false],
        },
    ];

    let msgs = recursive_find_msg_files(&entries);
    assert_eq!(msgs.len(), 1);
    assert_eq!(msgs[0].package_name, "pkg_a");
    assert_eq!(msgs[0].path, strings(&["ws", "pkg_a", "msg", "Pose.msg"]));

    let srvs = recursive_find_srv_files(&entries);
    assert_eq!(srvs.len(), 1);
    assert_eq!(srvs[0].package_name, "pkg_b");
    assert_eq!(srvs[0].path, strings(&["ws", "pkg_b", "srv", "Add.srv"]));

    let actions = recursive_find_action_files(&entries);
    assert!(actions.is_empty());
}

#[test]
fn finds_action_files() {
    let entries = vec![FileEntry {
        components: strings(&["ws", "pkg_c", "action", "Move.action"]),
        has_pkg_marker: vec![false, true, false, false],
    }];
    let actions = recursive_find_action_files(&entries);
    assert_eq!(actions.len(), 1);
    assert_eq!(actions[0].package_name, "pkg_c");
}

#[test]
fn entry_without_components_is_ignored() {
    let entries = vec![FileEntry { components: vec![], has_pkg_marker: vec![] }];
    assert!(recursive_find_msg_files(&entries).is_empty());
}
