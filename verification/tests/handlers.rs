use forgedrive::auth::{parse_session_id, UserSession};
use forgedrive::handlers::{
    admin_page, admin_record, user_record, admin_panel_access, admin_seed, database_url, delete_target, download_target,
    files_page, listing_target, login_attempt, login_decision, login_page, missing_directory,
    new_user_record, upload_directory, user_deletion_check, AdminUserDb, AdminUserItem,
    CreateUserPayload, Failure, LoginOutcome, LoginPage, LoginPayload,
};
use forgedrive::listing::FileItem;

fn session(read: bool, write: bool, admin: bool) -> UserSession {
    UserSession {
        id: 7,
        username: "bia".to_string(),
        root_path: "/data/bia".to_string(),
        allow_read: read,
        allow_write: write,
        is_admin: admin,
    }
}

#[test]
fn failures_have_their_status_and_message() {
    assert_eq!(Failure::ReadForbidden.status(), 403);
    assert_eq!(Failure::ReadForbidden.message(), "Acesso Negado: Permissão de Leitura ausente");
    assert_eq!(Failure::PathNotFound.status(), 404);
    assert_eq!(Failure::DirectoryRemoveFailed.status(), 400);
    assert_eq!(
        Failure::DirectoryRemoveFailed.message(),
        "Falha ao remover diretório. Verifique se ele está vazio."
    );
    assert_eq!(Failure::UserDeleteFailed.status(), 500);
    assert_eq!(Failure::SelfDeletion.message(), "Não é possível remover o próprio usuário ativo");
    assert_eq!(
        Failure::PathRejected.message(),
        "Acesso negado: Tentativa de Directory Traversal detectada"
    );
}

#[test]
fn login_page_redirects_a_signed_in_client() {
    assert!(matches!(login_page(true), LoginPage::RedirectToFiles));
    match login_page(false) {
        LoginPage::Form(t) => assert!(t.error.is_none()),
        _ => panic!("expected the form"),
    }
}

#[test]
fn login_decision_needs_a_matching_password() {
    match login_decision(42, Some(true)) {
        LoginOutcome::SignedIn { session_cookie } => assert_eq!(session_cookie, "42"),
        _ => panic!("expected a sign-in"),
    }
    for check in [Some(false), None] {
        match login_decision(42, check) {
            LoginOutcome::Refused(t) => {
                assert_eq!(t.error.as_deref(), Some("Usuário ou senha incorretos"))
            }
            _ => panic!("expected a refusal"),
        }
    }
}

#[test]
fn login_checks_the_password_with_bcrypt() {
    let hash = bcrypt::hash("segredo", 4).unwrap();
    let good = LoginPayload { username: "bia".to_string(), password: Some("segredo".to_string()) };
    let bad = LoginPayload { username: "bia".to_string(), password: Some("errado".to_string()) };
    let none = LoginPayload { username: "bia".to_string(), password: None };
    match login_attempt(&good, Some((9, hash.clone()))) {
        LoginOutcome::SignedIn { session_cookie } => {
            assert_eq!(parse_session_id(&session_cookie), Some(9))
        }
        _ => panic!("expected a sign-in"),
    }
    assert!(matches!(login_attempt(&bad, Some((9, hash.clone()))), LoginOutcome::Refused(_)));
    assert!(matches!(login_attempt(&none, Some((9, hash))), LoginOutcome::Refused(_)));
    assert!(matches!(login_attempt(&good, None), LoginOutcome::Refused(_)));
    assert!(matches!(
        login_attempt(&good, Some((9, "not a hash".to_string()))),
        LoginOutcome::Refused(_)
    ));
    let empty_hash = bcrypt::hash("", 4).unwrap();
    assert!(matches!(login_attempt(&none, Some((1, empty_hash))), LoginOutcome::SignedIn { .. }));
}

#[test]
fn created_user_can_sign_in() {
    let payload = CreateUserPayload {
        username: "caio".to_string(),
        password: Some("abc".to_string()),
        root_path: "/data/caio".to_string(),
        allow_read: Some("on".to_string()),
        allow_write: None,
    };
    let user = new_user_record(&session(true, true, true), payload).unwrap();
    assert_eq!(user.username, "caio");
    assert_eq!(user.root_path, "/data/caio");
    assert_eq!((user.allow_read, user.allow_write, user.is_admin), (1, 0, 0));
    assert!(user.password_hash.starts_with("$2b$12$"));
    let login = LoginPayload { username: "caio".to_string(), password: Some("abc".to_string()) };
    match login_attempt(&login, Some((5, user.password_hash))) {
        LoginOutcome::SignedIn { session_cookie } => assert_eq!(session_cookie, "5"),
        _ => panic!("expected a sign-in"),
    }
}

#[test]
fn only_admins_create_users() {
    let payload = CreateUserPayload {
        username: "x".to_string(),
        password: None,
        root_path: "/x".to_string(),
        allow_read: None,
        allow_write: None,
    };
    assert_eq!(
        new_user_record(&session(true, true, false), payload).unwrap_err(),
        Failure::AccessDenied
    );
}

#[test]
fn listing_needs_read_and_a_path_inside_the_root() {
    assert_eq!(listing_target(&session(false, true, true), None).unwrap_err(), Failure::ReadForbidden);
    let t = listing_target(&session(true, false, false), None).unwrap();
    assert_eq!((t.requested.as_str(), t.absolute.as_str()), ("", "/data/bia"));
    let t = listing_target(&session(true, false, false), Some("fotos/../docs".to_string())).unwrap();
    assert_eq!((t.requested.as_str(), t.absolute.as_str()), ("fotos/../docs", "/data/bia/docs"));
    assert_eq!(
        listing_target(&session(true, false, false), Some("../outro".to_string())).unwrap_err(),
        Failure::PathRejected
    );
}

#[test]
fn missing_root_is_created_other_paths_are_not_found() {
    assert!(missing_directory("").is_ok());
    assert_eq!(missing_directory("x").unwrap_err(), Failure::PathNotFound);
}

#[test]
fn downloads_uploads_and_deletions_check_permissions() {
    let reader = session(true, false, false);
    let writer = session(false, true, false);
    assert_eq!(download_target(&writer, "a.txt").unwrap_err(), Failure::DownloadForbidden);
    assert_eq!(download_target(&reader, "a.txt").unwrap(), "/data/bia/a.txt");
    assert_eq!(download_target(&reader, "../../etc/passwd").unwrap_err(), Failure::PathRejected);
    assert_eq!(upload_directory(&reader, None).unwrap_err(), Failure::WriteForbidden);
    assert_eq!(upload_directory(&writer, None).unwrap(), "/data/bia");
    assert_eq!(upload_directory(&writer, Some("/d/".to_string())).unwrap(), "/data/bia/d");
    assert_eq!(delete_target(&reader, "a").unwrap_err(), Failure::WriteForbidden);
    assert_eq!(delete_target(&writer, "a/./b").unwrap(), "/data/bia/a/b");
    assert_eq!(delete_target(&writer, "..").unwrap_err(), Failure::PathRejected);
}

#[test]
fn files_page_shows_the_sorted_listing() {
    let items = vec![
        FileItem::entry("docs", "b.txt".to_string(), false, "3 B".to_string()),
        FileItem::entry("docs", "Sub".to_string(), true, String::new()),
        FileItem::entry("docs", "A.txt".to_string(), false, "1 B".to_string()),
    ];
    let page = files_page(&session(true, true, false), "docs/2024", items);
    assert_eq!(page.username, "bia");
    assert!(!page.is_admin && page.allow_write && !page.current_dir_is_root);
    assert_eq!(page.parent_path, "docs");
    let crumbs: Vec<(&str, &str)> =
        page.breadcrumbs.iter().map(|b| (b.name.as_str(), b.path.as_str())).collect();
    assert_eq!(crumbs, vec![("docs", "docs"), ("2024", "docs/2024")]);
    let names: Vec<&str> = page.items.iter().map(|i| i.name.as_str()).collect();
    assert_eq!(names, vec!["Sub", "A.txt", "b.txt"]);
    let root_page = files_page(&session(true, true, true), "", Vec::new());
    assert!(root_page.current_dir_is_root && root_page.breadcrumbs.is_empty());
    assert_eq!(root_page.parent_path, "");
}

#[test]
fn admin_panel_is_for_admins() {
    assert!(admin_panel_access(&session(true, true, true)).is_ok());
    assert_eq!(admin_panel_access(&session(true, true, false)).unwrap_err(), Failure::AdminOnly);
}

#[test]
fn admin_page_lists_users_in_order() {
    let rows = vec![
        AdminUserDb { id: 1, username: "a".into(), root_path: "/a".into(), allow_read: 1, allow_write: 0, is_admin: 1 },
        AdminUserDb { id: 2, username: "b".into(), root_path: "/b".into(), allow_read: 0, allow_write: 5, is_admin: 0 },
    ];
    let page = admin_page(rows);
    let users: Vec<(i64, &str, &str, bool, bool, bool)> = page
        .users
        .iter()
        .map(|u: &AdminUserItem| (u.id, u.username.as_str(), u.root_path.as_str(), u.allow_read, u.allow_write, u.is_admin))
        .collect();
    assert_eq!(users, vec![(1, "a", "/a", true, false, true), (2, "b", "/b", false, true, false)]);
    assert!(admin_page(Vec::new()).users.is_empty());
}

#[test]
fn admins_cannot_delete_themselves() {
    assert_eq!(user_deletion_check(&session(true, true, false), 3).unwrap_err(), Failure::AccessDenied);
    assert_eq!(user_deletion_check(&session(true, true, true), 7).unwrap_err(), Failure::SelfDeletion);
    assert!(user_deletion_check(&session(true, true, true), 3).is_ok());
}

#[test]
fn first_admin_is_seeded_only_into_an_empty_database() {
    assert!(admin_seed(2, None, None, None).unwrap().is_none());
    let admin = admin_seed(0, None, None, None).unwrap().unwrap();
    assert_eq!(admin.username, "admin");
    assert_eq!(admin.root_path, "/data");
    assert_eq!((admin.allow_read, admin.allow_write, admin.is_admin), (1, 1, 1));
    assert!(bcrypt::verify("admin123", &admin.password_hash).unwrap());
}

#[test]
fn database_url_defaults_to_memory() {
    assert_eq!(database_url(None), "sqlite::memory:");
    assert_eq!(database_url(Some("sqlite://x.db".to_string())), "sqlite://x.db");
}

#[test]
fn rows_built_from_a_given_hash() {
    let payload = CreateUserPayload {
        username: "dora".to_string(),
        password: Some("ignored".to_string()),
        root_path: "/srv/dora".to_string(),
        allow_read: None,
        allow_write: Some("on".to_string()),
    };
    let u = user_record(payload, "$2b$12$hash".to_string());
    assert_eq!(u.username, "dora");
    assert_eq!(u.password_hash, "$2b$12$hash");
    assert_eq!(u.root_path, "/srv/dora");
    assert_eq!((u.allow_read, u.allow_write, u.is_admin), (0, 1, 0));
    let a = admin_record(None, Some("/srv".to_string()), "h".to_string());
    assert_eq!((a.username.as_str(), a.root_path.as_str(), a.password_hash.as_str()), ("admin", "/srv", "h"));
    assert_eq!((a.allow_read, a.allow_write, a.is_admin), (1, 1, 1));
    let b = admin_record(Some("root".to_string()), None, "h".to_string());
    assert_eq!((b.username.as_str(), b.root_path.as_str()), ("root", "/data"));
}

#[test]
fn seeded_admin_uses_configured_values() {
    let admin = admin_seed(0, Some("chefe".to_string()), Some("s3nha".to_string()), Some("/srv".to_string()))
        .unwrap()
        .unwrap();
    assert_eq!(admin.username, "chefe");
    assert_eq!(admin.root_path, "/srv");
    assert!(bcrypt::verify("s3nha", &admin.password_hash).unwrap());
    assert!(!bcrypt::verify("admin123", &admin.password_hash).unwrap());
}
