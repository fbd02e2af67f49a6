use forgedrive::listing::{
    breadcrumbs, content_disposition, delete_redirect, parent_path, sanitize_file_name,
    upload_destination, FileItem,
};
use forgedrive::sorting::{sort_by_keys, sort_file_items};

fn crumbs(req: &str) -> Vec<(String, String)> {
    breadcrumbs(req).into_iter().map(|b| (b.name, b.path)).collect()
}

fn pair(a: &str, b: &str) -> (String, String) {
    (a.to_string(), b.to_string())
}

#[test]
fn breadcrumbs_follow_the_nonempty_segments() {
    assert_eq!(crumbs(""), vec![]);
    assert_eq!(
        crumbs("fotos/2024/ferias"),
        vec![pair("fotos", "fotos"), pair("2024", "fotos/2024"), pair("ferias", "fotos/2024/ferias")]
    );
    assert_eq!(crumbs("/a//b/"), vec![pair("a", "a"), pair("b", "a/b")]);
    assert_eq!(crumbs("a/../."), vec![pair("a", "a"), pair("..", "a/.."), pair(".", "a/../.")]);
}

#[test]
fn breadcrumb_path_extends_the_previous_one() {
    let c = crumbs("x/yy/zzz");
    for i in 1..c.len() {
        assert_eq!(c[i].1, format!("{}/{}", c[i - 1].1, c[i].0));
    }
}

#[test]
fn parent_path_is_the_text_before_the_last_slash() {
    assert_eq!(parent_path("a/b/c"), "a/b");
    assert_eq!(parent_path("a"), "");
    assert_eq!(parent_path(""), "");
    assert_eq!(parent_path("/a"), "");
    assert_eq!(parent_path("a/"), "a");
    assert_eq!(parent_path("ção/ü"), "ção");
}

#[test]
fn parent_slash_name_rebuilds_the_request() {
    for r in ["a/b", "x/y/z.txt", "/top", "dir/"] {
        let idx = r.rfind('/').unwrap();
        assert_eq!(format!("{}/{}", parent_path(r), &r[idx + 1..]), r);
    }
}

#[test]
fn deletion_returns_to_the_listing_of_the_parent() {
    assert_eq!(delete_redirect("a/b.txt"), "/files/a");
    assert_eq!(delete_redirect("b.txt"), "/files");
    assert_eq!(delete_redirect("/x"), "/files/");
    assert_eq!(delete_redirect("a/b/c"), "/files/a/b");
}

#[test]
fn sanitized_names_lose_controls_and_slashes() {
    assert_eq!(sanitize_file_name("relatorio.pdf"), "relatorio.pdf");
    assert_eq!(sanitize_file_name("a/b\n\u{85}c\u{7f}\u{1f}"), "a_bc");
    assert_eq!(sanitize_file_name("../x"), ".._x");
    assert_eq!(sanitize_file_name("\t"), "");
    let once = sanitize_file_name("a/\u{0}b/c");
    assert_eq!(sanitize_file_name(&once), once);
}

#[test]
fn sanitizing_agrees_with_str_replace() {
    for name in ["a/b\n\u{85}c", "\u{9f}\u{a0}x/y", "plain", "ção/\u{1}"] {
        let expected = name.replace(char::is_control, "").replace('/', "_");
        assert_eq!(sanitize_file_name(name), expected);
    }
}

#[test]
fn upload_destinations() {
    assert_eq!(upload_destination("/data/u", Some("x.txt")), Some("/data/u/x.txt".to_string()));
    assert_eq!(upload_destination("/data/u", Some("a/b")), Some("/data/u/a_b".to_string()));
    assert_eq!(upload_destination("/data/u", Some("")), None);
    assert_eq!(upload_destination("/data/u", None), None);
    assert_eq!(upload_destination("/", Some("x")), Some("/x".to_string()));
    assert_eq!(upload_destination("", Some("x")), Some("x".to_string()));
    assert_eq!(upload_destination("/data/u", Some("\n")), Some("/data/u/".to_string()));
}

#[test]
fn uploads_land_inside_any_directory() {
    for base in ["docs/", "/data/./u", "a//b/", "/"] {
        let dest = upload_destination(base, Some("f/g.txt")).unwrap();
        let mut expected: Vec<_> = std::path::Path::new(base).components().collect();
        expected.push(std::path::Component::Normal("f_g.txt".as_ref()));
        let got: Vec<_> = std::path::Path::new(&dest).components().collect();
        assert_eq!(got, expected, "{:?}", base);
    }
}

#[test]
fn download_headers() {
    assert_eq!(
        content_disposition("/data/u/f.txt"),
        Some("attachment; filename=\"f.txt\"".to_string())
    );
    assert_eq!(content_disposition("/"), None);
    assert_eq!(content_disposition(""), None);
    assert_eq!(content_disposition("a/.."), None);
    assert_eq!(content_disposition("a/b/."), Some("attachment; filename=\"b\"".to_string()));
}

#[test]
fn entries_of_a_listing() {
    let root_file = FileItem::entry("", "a.txt".to_string(), false, "1.00 KB".to_string());
    assert_eq!(root_file.relative_path, "a.txt");
    assert_eq!(root_file.size, "1.00 KB");
    assert!(!root_file.is_dir);
    let nested_dir = FileItem::entry("docs/2024", "x".to_string(), true, "ignored".to_string());
    assert_eq!(nested_dir.relative_path, "docs/2024/x");
    assert_eq!(nested_dir.name, "x");
    assert_eq!(nested_dir.size, "-");
}

fn item(name: &str, is_dir: bool) -> FileItem {
    FileItem::entry("", name.to_string(), is_dir, "0 B".to_string())
}

fn names(items: &[FileItem]) -> Vec<(String, bool)> {
    items.iter().map(|i| (i.name.clone(), i.is_dir)).collect()
}

#[test]
fn listing_puts_directories_first_then_names() {
    let items = vec![
        item("zeta.txt", false),
        item("Beta", true),
        item("alpha.txt", false),
        item("Ária", false),
        item("alpha", true),
        item("Alpha.txt", false),
    ];
    let sorted = sort_file_items(items.clone());
    let mut expected = items;
    expected.sort_by(|a, b| b.is_dir.cmp(&a.is_dir).then_with(|| a.name.to_lowercase().cmp(&b.name.to_lowercase())));
    assert_eq!(names(&sorted), names(&expected));
    assert!(sorted[0].is_dir && sorted[1].is_dir);
    assert_eq!(sorted[0].name, "alpha");
}

#[test]
fn listing_of_nothing_is_empty() {
    assert!(sort_file_items(Vec::new()).is_empty());
}

#[test]
fn sorting_by_given_keys_keeps_ties_in_order() {
    let items = vec![item("first", false), item("dir", true), item("second", false), item("third", false)];
    let keys = vec!["b".to_string(), "z".to_string(), "a".to_string(), "b".to_string()];
    let sorted = sort_by_keys(items, keys);
    let got: Vec<&str> = sorted.iter().map(|i| i.name.as_str()).collect();
    assert_eq!(got, vec!["dir", "second", "first", "third"]);
}

#[test]
fn equal_lowercase_names_keep_their_order() {
    let sorted = sort_file_items(vec![item("b.txt", false), item("B.TXT", false), item("a", false), item("b.TXT", false)]);
    let got: Vec<&str> = sorted.iter().map(|i| i.name.as_str()).collect();
    assert_eq!(got, vec!["a", "b.txt", "B.TXT", "b.TXT"]);
}
