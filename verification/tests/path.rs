use fleet::path::{default_path, expand, is_clean_absolute, lexical_normal, same, starts_with};
use fleet::error::FleetError;

#[test]
fn expand_replaces_leading_tilde_component() {
    assert_eq!(expand("~/src/x", Some("/home/sam")).unwrap(), "/home/sam/src/x");
    assert_eq!(expand("~", Some("/home/sam")).unwrap(), "/home/sam/");
    assert_eq!(expand("~//a/./", Some("/home/sam/")).unwrap(), "/home/sam/a");
    assert_eq!(expand("~user/x", Some("/home/sam")).unwrap(), "~user/x");
    assert_eq!(expand("/abs/~/x", None).unwrap(), "/abs/~/x");
    assert!(matches!(expand("~/x", None), Err(FleetError::HomeNotSet)));
}

#[test]
fn default_path_prefers_xdg() {
    assert_eq!(
        default_path(Some("/cfg"), Some("/home/sam")).unwrap(),
        "/cfg/fleet/workspaces.toml"
    );
    assert_eq!(
        default_path(None, Some("/home/sam")).unwrap(),
        "/home/sam/.config/fleet/workspaces.toml"
    );
    assert_eq!(default_path(Some(""), None).unwrap(), "fleet/workspaces.toml");
    assert!(matches!(default_path(None, None), Err(FleetError::HomeNotSet)));
}

#[test]
fn lexical_normal_resolves_dots() {
    assert_eq!(lexical_normal("/a/./b//c/../d/"), "/a/b/d");
    assert_eq!(lexical_normal("/../x"), "/x");
    assert_eq!(lexical_normal("/"), "/");
}

#[test]
fn starts_with_respects_component_boundaries() {
    assert!(starts_with("/fleet-test/repo/src", "/fleet-test/repo"));
    assert!(starts_with("/fleet-test/repo", "/fleet-test/repo/"));
    assert!(!starts_with("/fleet-test/repository", "/fleet-test/repo"));
    assert!(!starts_with("fleet-test/repo/src", "/fleet-test/repo"));
    assert!(starts_with("./a/b", "./a"));
}

#[test]
fn same_compares_components() {
    assert!(same("/a//b/", "/a/b"));
    assert!(same("/a/./b", "/a/b"));
    assert!(!same("/a/../b", "/b"));
    assert!(!same("a", "/a"));
}

const SAMPLES: &[&str] = &[
    "", "/", "//", "~", "~/", "~//", "~/.", "~/./a", "~/a/b/", "~/a/./", "~//a//b//", "~/..",
    "~/a/..", "~x", "~user/a", "./~", ".", "./", "./a", ".//a/.", "a", "a/", "a/b", "a//b/.",
    "/a", "/a/", "/a/./b", "/a/../b", "/../a", "/a//b", "/a/.b", "/a/...", "/.a", "..", "../a",
    "/fleet-test/repo", "/fleet-test/repo/src", "/fleet-test/repository", "~/.config",
];

fn std_expand(p: &str, home: &str) -> String {
    let path = std::path::Path::new(p);
    if path.starts_with("~") {
        std::path::Path::new(home)
            .join(path.strip_prefix("~").unwrap())
            .to_str()
            .unwrap()
            .to_string()
    } else {
        p.to_string()
    }
}

fn std_normal(p: &str) -> String {
    let mut out = std::path::PathBuf::new();
    for c in std::path::Path::new(p).components() {
        if c == std::path::Component::ParentDir {
            out.pop();
        } else {
            out.push(c);
        }
    }
    out.to_str().unwrap().to_string()
}

#[test]
fn expand_agrees_with_std_path() {
    for home in ["/home/sam", "/home/sam/", "", "rel/home"] {
        for p in SAMPLES {
            assert_eq!(expand(p, Some(home)).unwrap(), std_expand(p, home), "{p:?} with {home:?}");
        }
    }
}

#[test]
fn path_comparisons_agree_with_std_path() {
    for a in SAMPLES {
        for b in SAMPLES {
            let (pa, pb) = (std::path::Path::new(a), std::path::Path::new(b));
            assert_eq!(same(a, b), pa == pb, "{a:?} == {b:?}");
            assert_eq!(starts_with(a, b), pa.starts_with(pb), "{a:?} starts with {b:?}");
        }
    }
}

#[test]
fn lexical_normal_agrees_with_component_fold() {
    for p in SAMPLES.iter().filter(|p| p.starts_with('/')) {
        assert_eq!(lexical_normal(p), std_normal(p), "{p:?}");
    }
}

#[test]
fn default_path_agrees_with_std_join() {
    let joined = std::path::Path::new("/home/sam").join(".config").join("fleet/workspaces.toml");
    assert_eq!(default_path(None, Some("/home/sam")).unwrap(), joined.to_str().unwrap());
}

#[test]
fn clean_absolute_paths_have_no_parent_components() {
    assert!(is_clean_absolute("/"));
    assert!(is_clean_absolute("/a/b"));
    assert!(is_clean_absolute("/a/./b//"));
    assert!(is_clean_absolute("/a/..b/c.."));
    assert!(!is_clean_absolute("/a/../b"));
    assert!(!is_clean_absolute("/.."));
    assert!(!is_clean_absolute("a/b"));
    assert!(!is_clean_absolute(""));
    for p in SAMPLES.iter().filter(|p| p.starts_with('/')) {
        assert!(is_clean_absolute(&lexical_normal(p)), "{p:?}");
    }
}

#[test]
fn expanding_twice_changes_nothing() {
    for home in ["/home/sam", "/home/sam/", "rel/home", "~user"] {
        for p in SAMPLES {
            let once = expand(p, Some(home)).unwrap();
            assert_eq!(expand(&once, Some(home)).unwrap(), once, "{p:?} with {home:?}");
        }
    }
    // With an empty home the result may start with `~` again; otherwise
    // expanding twice still changes nothing.
    assert_eq!(expand("~/~/x", Some("")).unwrap(), "~/x");
    assert_eq!(expand("~/x", Some("")).unwrap(), "x");
    for p in SAMPLES {
        let once = expand(p, Some("")).unwrap();
        if !(once == "~" || once.starts_with("~/")) {
            assert_eq!(expand(&once, Some("")).unwrap(), once, "{p:?}");
        }
    }
}
