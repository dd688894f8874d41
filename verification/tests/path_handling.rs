use trickydata_compiler::paths::{components, copy_parts, normalize, path_string, relative_path, render_path, Component};

fn names(p: &[Component]) -> Vec<String> {
    p.iter()
        .map(|c| match c {
            Component::RootDir => "/".to_string(),
            Component::CurDir => ".".to_string(),
            Component::ParentDir => "..".to_string(),
            Component::Normal(s) => s.clone(),
        })
        .collect()
}

#[test]
fn components_follow_std() {
    for p in ["a/b", "/a//b/", "./a/./b", "../a", "a/..", "", "/", ".", "a/b/."] {
        let expected: Vec<String> =
            std::path::Path::new(p).components().map(|c| c.as_os_str().to_string_lossy().into_owned()).collect();
        assert_eq!(names(&components(p)), expected, "{p}");
    }
}

#[test]
fn normalization_resolves_dots() {
    assert_eq!(path_string(&normalize(&components("a/./b/../c"))), "a/c");
    assert_eq!(path_string(&normalize(&components("../a"))), "a");
    assert_eq!(render_path(&normalize(&components("/a/../../b"))), "/b");
    let once = normalize(&components("x/../y/./z"));
    assert_eq!(names(&normalize(&once)), names(&once));
}

#[test]
fn relative_paths_lead_back() {
    let from = normalize(&components("inputs/text"));
    let to = normalize(&components("inputs/other/cafe.input"));
    let rel = relative_path(&from, &to);
    assert_eq!(path_string(&rel), "../other/cafe.input");
    let mut joined = copy_parts(&from);
    joined.extend(components(&path_string(&rel)));
    assert_eq!(names(&normalize(&joined)), names(&to));
    assert_eq!(path_string(&relative_path(&components("a"), &components("a/b"))), "b");
}

#[test]
fn written_paths_read_back() {
    for p in ["a/b", "/a//b/", "./a/./b", "../a", "a/..", "", "/", ".", "./", "//x"] {
        let parts = components(p);
        assert_eq!(names(&components(&path_string(&parts))), names(&parts), "{p}");
    }
}
