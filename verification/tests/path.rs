//! Paths and the scope.

use xfx::workspace::path::{
    is_ignored_directory, path_inside, AccessScope, Directory, Location, PathError, Resolution,
    IGNORED_DIRECTORY_NAMES,
};

fn at(text: &str) -> Location {
    Location::parse(text.as_bytes())
}

fn root(text: &str) -> (String, Directory) {
    (text.to_string(), Directory::Real(at(text)))
}

#[test]
fn containment_is_component_wise_not_a_string_prefix() {
    assert!(path_inside(&at("/work"), &at("/work")));
    assert!(path_inside(&at("/work"), &at("/work/src/a.rs")));
    assert!(!path_inside(&at("/work"), &at("/work-evil/a.rs")));
    assert!(!path_inside(&at("/work/src"), &at("/work")));
}

#[test]
fn the_ignored_directory_set_is_upstreams() {
    assert_eq!(
        IGNORED_DIRECTORY_NAMES,
        [
            ".git",
            ".zig-cache",
            "zig-out",
            "node_modules",
            ".next",
            "dist",
            "build",
            "coverage"
        ]
    );
    assert!(is_ignored_directory(".git"));
    assert!(!is_ignored_directory("src"));
}

#[test]
fn every_ignored_name_is_ignored_and_no_neighbour_is() {
    for name in IGNORED_DIRECTORY_NAMES {
        assert!(is_ignored_directory(name), "{name}");
        assert!(!is_ignored_directory(&format!("{name}x")), "{name}");
        assert!(!is_ignored_directory(&name[1..]), "{name}");
    }
    assert!(!is_ignored_directory(""));
}

#[test]
fn an_additional_root_already_inside_the_primary_is_dropped() {
    let scope = AccessScope::new(root("/tree"), vec![root("/tree/inner")]).expect("scope");
    assert!(scope.additional_roots().is_empty());
    assert_eq!(scope.roots().len(), 1);
}

#[test]
fn a_duplicate_additional_root_is_kept_once() {
    let scope =
        AccessScope::new(root("/tree"), vec![root("/extra"), root("/extra")]).expect("scope");
    assert_eq!(scope.additional_roots().len(), 1);
}

#[test]
fn the_workspace_root_itself_displays_as_a_single_dot() {
    let scope = AccessScope::primary_only(root("/tree")).expect("scope");
    assert_eq!(scope.display_path(&at("/tree")), ".");
    assert_eq!(scope.display_path(&at("/tree/a/b.txt")), "a/b.txt");
    assert_eq!(
        scope.display_path(&at("/elsewhere/x.txt")),
        "/elsewhere/x.txt"
    );
}

#[test]
fn a_resolution_error_names_the_requested_path_and_not_the_resolved_one() {
    let message = PathError::OutsideScope {
        requested: "escape.txt".to_string(),
    }
    .message();
    assert!(message.contains("escape.txt"), "{message}");
    assert!(message.contains("outside"), "{message}");
}

#[test]
fn every_error_says_what_to_do_differently() {
    let requested = "a/b".to_string();
    let detail = "denied".to_string();
    for (error, message) in [
        (PathError::Empty, "the path must not be empty"),
        (
            PathError::NotFound {
                requested: requested.clone(),
            },
            "no such path: `a/b`",
        ),
        (
            PathError::OutsideScope {
                requested: requested.clone(),
            },
            "`a/b` resolves outside the authorized workspace roots",
        ),
        (
            PathError::Unresolvable {
                requested: requested.clone(),
                detail: detail.clone(),
            },
            "cannot resolve `a/b`: denied",
        ),
        (
            PathError::RootUnavailable {
                path: requested,
                detail,
            },
            "`a/b` is not a usable directory: denied",
        ),
    ] {
        assert_eq!(error.message(), message);
    }
}

#[test]
fn a_path_is_its_components() {
    assert_eq!(at("/a//b/./c/"), at("/a/b/c"));
    assert_eq!(at("a/b").bytes(), b"a/b");
    assert_eq!(at("/").bytes(), b"/");
    assert_eq!(at("").bytes(), b"");
    assert_ne!(at("./a"), at("a"));
    assert_eq!(at("/a/../b").bytes(), b"/a/../b");
    assert_eq!(at("/w").join(&at("./a")), at("/w/a"));
    assert_eq!(at("/w").join(&at("/a")), at("/a"));
    assert_eq!(at("/w/a").parent(), Some(at("/w")));
    assert_eq!(at("/").parent(), None);
}

#[test]
fn bytes_that_are_not_text_read_with_a_replacement() {
    let scope = AccessScope::primary_only(root("/tree")).expect("scope");
    let odd = Location::parse(b"/elsewhere/\xff.txt");
    assert_eq!(scope.display_path(&odd), "/elsewhere/\u{fffd}.txt");
}

#[test]
fn a_root_that_is_not_a_directory_is_refused_with_the_name_it_was_given() {
    let error = AccessScope::new(
        root("/tree"),
        vec![
            root("/extra"),
            ("notes.txt".to_string(), Directory::Other),
            ("gone".to_string(), Directory::Failed("no entry".to_string())),
        ],
    )
    .expect_err("a file is no root");
    assert_eq!(
        error,
        PathError::RootUnavailable {
            path: "notes.txt".to_string(),
            detail: "not a directory".to_string(),
        }
    );
    let error = AccessScope::primary_only((
        "gone".to_string(),
        Directory::Failed("no entry".to_string()),
    ))
    .expect_err("nothing is no root");
    assert_eq!(
        error,
        PathError::RootUnavailable {
            path: "gone".to_string(),
            detail: "no entry".to_string(),
        }
    );
}

#[test]
fn a_request_is_decided_by_where_it_really_leads() {
    let scope = AccessScope::new(root("/tree"), vec![root("/extra")]).expect("scope");
    assert_eq!(scope.anchored("  src/a.rs\n"), Some(b"/tree/src/a.rs".to_vec()));
    assert_eq!(scope.anchored("/etc/passwd"), Some(b"/etc/passwd".to_vec()));
    assert_eq!(scope.anchored(" \t"), None);
    // A slash behind a name asks for a directory, so it is kept.
    assert_eq!(scope.anchored("a.rs/"), Some(b"/tree/a.rs/".to_vec()));
    assert_eq!(scope.anchored("./../b"), Some(b"/tree/./../b".to_vec()));

    let resolved = scope
        .resolve_existing("link", Resolution::Real(at("/extra/b")))
        .expect("in an additional root");
    assert_eq!(resolved.absolute(), &at("/extra/b"));
    assert_eq!(resolved.root(), &at("/extra"));

    for (requested, found, error) in [
        ("", Resolution::Missing, PathError::Empty),
        (
            " a ",
            Resolution::Missing,
            PathError::NotFound {
                requested: "a".to_string(),
            },
        ),
        (
            "a",
            Resolution::Failed("loop".to_string()),
            PathError::Unresolvable {
                requested: "a".to_string(),
                detail: "loop".to_string(),
            },
        ),
        (
            "a",
            Resolution::Real(at("/tree-evil/a")),
            PathError::OutsideScope {
                requested: "a".to_string(),
            },
        ),
    ] {
        assert_eq!(scope.resolve_existing(requested, found), Err(error));
    }
}

#[test]
fn dropping_a_contained_root_takes_no_authority_away() {
    let scope = AccessScope::new(
        root("/tree"),
        vec![root("/extra"), root("/extra/deep"), root("/tree/inner")],
    )
    .expect("scope");
    assert_eq!(scope.additional_roots(), &[at("/extra")]);
    for inside in ["/tree", "/tree/inner/x", "/extra", "/extra/deep/x"] {
        assert!(scope.root_for(&at(inside)).is_some(), "{inside}");
    }
    assert_eq!(scope.root_for(&at("/")), None);
    assert_eq!(scope.root_for(&at("/extras")), None);
}

#[test]
fn a_root_named_before_the_one_that_contains_it_is_dropped_too() {
    let scope = AccessScope::new(
        root("/tree"),
        vec![
            root("/x/inner"),
            root("/y"),
            root("/x"),
            root("/y"),
            root("/x/inner/deep"),
        ],
    )
    .expect("scope");
    assert_eq!(scope.additional_roots(), &[at("/y"), at("/x")]);
    for inside in ["/x/inner", "/x/inner/deep/a", "/y/b"] {
        assert!(scope.root_for(&at(inside)).is_some(), "{inside}");
    }
}
