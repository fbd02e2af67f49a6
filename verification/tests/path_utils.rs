use std::path::{Component, Path, PathBuf};

use forgedrive::path_utils::{clean_lexically, validate_and_resolve_path};

#[test]
fn test_valid_paths() {
    let root = "/data/user1";
    assert!(validate_and_resolve_path(root, "pasta/arquivo.txt").is_ok());
    assert_eq!(
        PathBuf::from(validate_and_resolve_path(root, "fotos/../pasta/file.png").unwrap()),
        PathBuf::from("/data/user1/pasta/file.png")
    );
}

#[test]
fn test_traversal_prevention() {
    let root = "/data/user1";
    assert!(validate_and_resolve_path(root, "../../etc/passwd").is_err());
    assert!(validate_and_resolve_path(root, "fotos/../../../etc/shadow").is_err());
    assert!(validate_and_resolve_path(root, "..").is_err());
}

/// Lexical resolution with `std::path`, used as an independent oracle.
fn std_clean(path: &Path) -> PathBuf {
    let mut names = Vec::new();
    for component in path.components() {
        match component {
            Component::ParentDir => {
                names.pop();
            }
            Component::Normal(c) => names.push(c),
            _ => {}
        }
    }
    let mut result = PathBuf::new();
    if path.is_absolute() {
        result.push("/");
    }
    for c in names {
        result.push(c);
    }
    result
}

fn std_resolve(root: &str, requested: &str) -> Option<String> {
    let target = std_clean(&Path::new(root).join(requested.trim_start_matches('/')));
    if target.starts_with(Path::new(root)) {
        Some(target.to_str().unwrap().to_string())
    } else {
        None
    }
}

const ROOTS: &[&str] = &[
    "/data/user1",
    "/data/user1/",
    "/",
    "",
    ".",
    "./data",
    "data",
    "data/../x",
    "/data/./user1",
    "//srv//files",
    "/a/..",
    "..",
    "a/b/c",
];

const REQUESTS: &[&str] = &[
    "",
    "/",
    "//",
    "pasta/arquivo.txt",
    "fotos/../pasta/file.png",
    "../../etc/passwd",
    "fotos/../../../etc/shadow",
    "..",
    ".",
    "./a",
    "a/./b/",
    "///a//b",
    "a/b/../../..",
    "a/b/../..",
    "x/..",
    ".hidden/..x/x..",
    "...",
    "a/../b/./c/../d",
    "ção/arquivo ü.txt",
    "user1/../user1",
];

#[test]
fn resolution_agrees_with_std_path() {
    for root in ROOTS {
        for req in REQUESTS {
            let ours = validate_and_resolve_path(root, req).ok();
            assert_eq!(ours, std_resolve(root, req), "root {:?} request {:?}", root, req);
        }
    }
}

#[test]
fn cleaning_agrees_with_std_path() {
    for root in ROOTS {
        for req in REQUESTS {
            for p in [root.to_string(), req.to_string(), format!("{}/{}", root, req)] {
                let ours = clean_lexically(&p);
                let theirs = std_clean(Path::new(&p));
                assert_eq!(ours, theirs.to_str().unwrap(), "path {:?}", p);
            }
        }
    }
}

#[test]
fn refusal_carries_the_traversal_message() {
    assert_eq!(
        validate_and_resolve_path("/data/user1", "../x").unwrap_err(),
        "Acesso negado: Tentativa de Directory Traversal detectada"
    );
}

#[test]
fn cleaning_is_idempotent_on_examples() {
    for p in ["/a/../b/./c//", "x/../../y", "./.", "/..", ""] {
        let once = clean_lexically(p);
        assert_eq!(clean_lexically(&once), once);
    }
}

#[test]
fn empty_request_resolves_to_the_root() {
    assert_eq!(validate_and_resolve_path("/data/user1", "").unwrap(), "/data/user1");
    assert_eq!(validate_and_resolve_path("/data/user1", "/").unwrap(), "/data/user1");
}

#[test]
fn leading_slashes_do_not_matter() {
    for req in ["a/b", "../x", "", "./c/../d"] {
        let with = format!("/{}", req);
        assert_eq!(
            validate_and_resolve_path("/data/user1", &with),
            validate_and_resolve_path("/data/user1", req)
        );
    }
}

#[test]
fn requests_without_parent_segments_are_accepted() {
    for req in ["a", "a/b/c", "./x", "/y//z/", "..a/b..", ""] {
        assert!(validate_and_resolve_path("/data/user1", req).is_ok(), "{:?}", req);
        assert!(validate_and_resolve_path("data", req).is_ok(), "{:?}", req);
        assert!(validate_and_resolve_path("", req).is_ok(), "{:?}", req);
    }
}

#[test]
fn resolved_paths_stay_under_the_root() {
    for req in REQUESTS {
        if let Ok(p) = validate_and_resolve_path("/data/user1", req) {
            assert!(Path::new(&p).starts_with("/data/user1"), "{:?}", p);
            assert!(!Path::new(&p).components().any(|c| matches!(c, Component::ParentDir | Component::CurDir)));
        }
    }
}

#[test]
fn cleaning_a_join_does_not_depend_on_cleaning_the_base_first() {
    for base in ROOTS {
        for rel in REQUESTS.iter().chain(["/abs/../x", "b/../../c"].iter()) {
            let direct = Path::new(base).join(rel);
            let cleaned_base = clean_lexically(base);
            let via_cleaned = Path::new(&cleaned_base).join(rel);
            assert_eq!(
                clean_lexically(direct.to_str().unwrap()),
                clean_lexically(via_cleaned.to_str().unwrap()),
                "base {:?} rel {:?}",
                base,
                rel
            );
        }
    }
}

#[test]
fn roots_of_plain_names_accept_requests_without_parent_segments() {
    for root in ["/data/user1/", "//srv//files", "data/x/", "/"] {
        for req in ["a", "a/b/c", "./x", "/y//z/", "..a/b..", ""] {
            let expected = clean_lexically(Path::new(root).join(req.trim_start_matches('/')).to_str().unwrap());
            assert_eq!(validate_and_resolve_path(root, req), Ok(expected), "{:?} {:?}", root, req);
        }
    }
}
