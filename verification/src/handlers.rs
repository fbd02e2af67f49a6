//! The decisions of the web handlers: who may do what, which path a request
//! acts on, what page or redirect answers it.  The handlers themselves (the
//! HTTP, database and file system work) call these.
use vstd::prelude::*;

use crate::auth::{
    decimal_text, law_session_cookie_roundtrip, parsed_i64, session_cookie_value, UserSession,
};
use crate::listing::{
    before_last_slash, breadcrumbs, crumb_names, is_crumb, parent_path, Breadcrumb, FileItem,
};
use crate::password::{bcrypt_hash, bcrypt_verify, bcrypt_verify_result};
use crate::path_model::resolved;
use crate::path_utils::{traversal_message, validate_and_resolve_path};
use crate::sorting::{is_listing_order, is_stable_arrangement, sort_file_items};

verus! {

/// A request that is refused, with the status and message it is answered
/// with.
#[derive(Debug, Clone, Copy, PartialEq, Eq, Structural)]
pub enum Failure {
    /// Listing without the read permission.
    ReadForbidden,
    /// Downloading without the read permission.
    DownloadForbidden,
    /// Uploading or deleting without the write permission.
    WriteForbidden,
    /// The requested path leaves the user's root.
    PathRejected,
    /// The directory to list does not exist.
    PathNotFound,
    /// The directory could not be read.
    DirectoryUnreadable,
    /// A directory was asked for as a download.
    DirectoryDownload,
    /// The file does not exist or cannot be opened.
    FileNotFound,
    /// An uploaded file could not be created.
    FileCreateFailed,
    /// An uploaded file could not be written.
    FileWriteFailed,
    /// A directory could not be removed (it is not empty).
    DirectoryRemoveFailed,
    /// A file could not be removed.
    FileRemoveFailed,
    /// The admin panel was asked for by a user who is not an admin.
    AdminOnly,
    /// A user-management action by a user who is not an admin.
    AccessDenied,
    /// The users could not be listed.
    UserListFailed,
    /// A user could not be created.
    UserCreateFailed,
    /// An admin tried to delete their own account.
    SelfDeletion,
    /// A user could not be deleted.
    UserDeleteFailed,
    /// A password could not be hashed: no randomness for the salt.
    PasswordHashUnavailable,
}

/// The HTTP status code of a refusal.
pub open spec fn failure_status(f: Failure) -> u16 {
    match f {
        Failure::ReadForbidden => 403,
        Failure::DownloadForbidden => 403,
        Failure::WriteForbidden => 403,
        Failure::PathRejected => 403,
        Failure::PathNotFound => 404,
        Failure::DirectoryUnreadable => 500,
        Failure::DirectoryDownload => 400,
        Failure::FileNotFound => 404,
        Failure::FileCreateFailed => 500,
        Failure::FileWriteFailed => 500,
        Failure::DirectoryRemoveFailed => 400,
        Failure::FileRemoveFailed => 500,
        Failure::AdminOnly => 403,
        Failure::AccessDenied => 403,
        Failure::UserListFailed => 500,
        Failure::UserCreateFailed => 400,
        Failure::SelfDeletion => 400,
        Failure::UserDeleteFailed => 500,
        Failure::PasswordHashUnavailable => 500,
    }
}

/// The message of a refusal.
pub open spec fn failure_message(f: Failure) -> Seq<char> {
    match f {
        Failure::ReadForbidden => "Acesso Negado: Permissão de Leitura ausente"@,
        Failure::DownloadForbidden => "Acesso Negado: Sem permissão de Leitura"@,
        Failure::WriteForbidden => "Acesso Negado: Sem permissão de Escrita"@,
        Failure::PathRejected => traversal_message(),
        Failure::PathNotFound => "Caminho não encontrado"@,
        Failure::DirectoryUnreadable => "Falha ao ler diretório"@,
        Failure::DirectoryDownload => "Não é possível baixar um diretório"@,
        Failure::FileNotFound => "Arquivo não encontrado"@,
        Failure::FileCreateFailed => "Falha ao criar arquivo"@,
        Failure::FileWriteFailed => "Falha ao gravar arquivo"@,
        Failure::DirectoryRemoveFailed => "Falha ao remover diretório. Verifique se ele está vazio."@,
        Failure::FileRemoveFailed => "Falha ao remover arquivo"@,
        Failure::AdminOnly => "Acesso Negado: Área restrita ao Admin"@,
        Failure::AccessDenied => "Acesso Negado"@,
        Failure::UserListFailed => "Erro ao listar usuários"@,
        Failure::UserCreateFailed => "Usuário já existe ou dados inválidos"@,
        Failure::SelfDeletion => "Não é possível remover o próprio usuário ativo"@,
        Failure::UserDeleteFailed => "Falha ao remover usuário"@,
        Failure::PasswordHashUnavailable => "Erro ao hashear senha"@,
    }
}

impl Failure {
    /// The HTTP status code this refusal is answered with.
    pub fn status(&self) -> (r: u16)
        ensures
            r == failure_status(*self),
    {
        match self {
            Failure::ReadForbidden => 403,
            Failure::DownloadForbidden => 403,
            Failure::WriteForbidden => 403,
            Failure::PathRejected => 403,
            Failure::PathNotFound => 404,
            Failure::DirectoryUnreadable => 500,
            Failure::DirectoryDownload => 400,
            Failure::FileNotFound => 404,
            Failure::FileCreateFailed => 500,
            Failure::FileWriteFailed => 500,
            Failure::DirectoryRemoveFailed => 400,
            Failure::FileRemoveFailed => 500,
            Failure::AdminOnly => 403,
            Failure::AccessDenied => 403,
            Failure::UserListFailed => 500,
            Failure::UserCreateFailed => 400,
            Failure::SelfDeletion => 400,
            Failure::UserDeleteFailed => 500,
            Failure::PasswordHashUnavailable => 500,
        }
    }

    /// The message this refusal is answered with.
    pub fn message(&self) -> (r: &'static str)
        ensures
            r@ == failure_message(*self),
    {
        match self {
            Failure::ReadForbidden => "Acesso Negado: Permissão de Leitura ausente",
            Failure::DownloadForbidden => "Acesso Negado: Sem permissão de Leitura",
            Failure::WriteForbidden => "Acesso Negado: Sem permissão de Escrita",
            Failure::PathRejected => "Acesso negado: Tentativa de Directory Traversal detectada",
            Failure::PathNotFound => "Caminho não encontrado",
            Failure::DirectoryUnreadable => "Falha ao ler diretório",
            Failure::DirectoryDownload => "Não é possível baixar um diretório",
            Failure::FileNotFound => "Arquivo não encontrado",
            Failure::FileCreateFailed => "Falha ao criar arquivo",
            Failure::FileWriteFailed => "Falha ao gravar arquivo",
            Failure::DirectoryRemoveFailed => "Falha ao remover diretório. Verifique se ele está vazio.",
            Failure::FileRemoveFailed => "Falha ao remover arquivo",
            Failure::AdminOnly => "Acesso Negado: Área restrita ao Admin",
            Failure::AccessDenied => "Acesso Negado",
            Failure::UserListFailed => "Erro ao listar usuários",
            Failure::UserCreateFailed => "Usuário já existe ou dados inválidos",
            Failure::SelfDeletion => "Não é possível remover o próprio usuário ativo",
            Failure::UserDeleteFailed => "Falha ao remover usuário",
            Failure::PasswordHashUnavailable => "Erro ao hashear senha",
        }
    }
}

/// The login page, with the error shown above the form (if any).
#[derive(Debug, Clone)]
pub struct LoginTemplate {
    pub error: Option<String>,
}

/// The page listing a directory.
#[derive(Debug, Clone)]
pub struct FilesTemplate {
    pub username: String,
    pub is_admin: bool,
    pub allow_write: bool,
    pub current_dir_is_root: bool,
    pub parent_path: String,
    pub breadcrumbs: Vec<Breadcrumb>,
    pub items: Vec<FileItem>,
}

/// The admin page listing the users.
#[derive(Debug, Clone)]
pub struct AdminTemplate {
    pub users: Vec<AdminUserItem>,
}

/// One user as the admin page shows them.
#[derive(Debug, Clone)]
pub struct AdminUserItem {
    pub id: i64,
    pub username: String,
    pub root_path: String,
    pub allow_read: bool,
    pub allow_write: bool,
    pub is_admin: bool,
}

/// The login form as submitted.
#[derive(Debug, Clone)]
pub struct LoginPayload {
    pub username: String,
    pub password: Option<String>,
}

/// A user row as the database stores it: the permissions are integers.
#[derive(Debug, Clone)]
pub struct AdminUserDb {
    pub id: i64,
    pub username: String,
    pub root_path: String,
    pub allow_read: i32,
    pub allow_write: i32,
    pub is_admin: i32,
}

/// The form that creates a user, as submitted: a permission box that is
/// ticked is present.
#[derive(Debug, Clone)]
pub struct CreateUserPayload {
    pub username: String,
    pub password: Option<String>,
    pub root_path: String,
    pub allow_read: Option<String>,
    pub allow_write: Option<String>,
}

/// A user row to be inserted.
#[derive(Debug, Clone)]
pub struct NewUser {
    pub username: String,
    pub password_hash: String,
    pub root_path: String,
    pub allow_read: i32,
    pub allow_write: i32,
    pub is_admin: i32,
}

/// The text of an optional string, empty when it is absent.
pub open spec fn text_or_empty(o: Option<String>) -> Seq<char> {
    match o {
        Some(s) => s@,
        None => Seq::empty(),
    }
}

/// The message shown on a failed login.
pub open spec fn login_error_text() -> Seq<char> {
    "Usuário ou senha incorretos"@
}

/// What answers a request for the login page.
#[derive(Debug, Clone)]
pub enum LoginPage {
    /// A session cookie is present: go to the file listing.
    RedirectToFiles,
    /// Show the login form.
    Form(LoginTemplate),
}

/// The login page: a client that already holds a session cookie is sent to
/// its files, any other is shown the form without an error.
pub fn login_page(has_session_cookie: bool) -> (r: LoginPage)
    ensures
        has_session_cookie ==> r is RedirectToFiles,
        !has_session_cookie ==> (r matches LoginPage::Form(t) && t.error is None),
{
    if has_session_cookie {
        LoginPage::RedirectToFiles
    } else {
        LoginPage::Form(LoginTemplate { error: None })
    }
}

/// What answers a submitted login form.
#[derive(Debug, Clone)]
pub enum LoginOutcome {
    /// The password matched: set the session cookie to this value and go to
    /// the file listing.
    SignedIn { session_cookie: String },
    /// Show the login form again with this error.
    Refused(LoginTemplate),
}

/// The login signs the user `id` in: the session cookie holds the decimal
/// text of the id.
pub open spec fn signs_in_as(r: LoginOutcome, id: i64) -> bool {
    r matches LoginOutcome::SignedIn { session_cookie } && session_cookie@ == decimal_text(id)
}

/// The login is refused with the login error shown on the form.
pub open spec fn is_refused_login(r: LoginOutcome) -> bool {
    r matches LoginOutcome::Refused(t) && t.error matches Some(e) && e@ == login_error_text()
}

/// The answer to a login of user `id` once the password check gave
/// `password_check`: only a check that says the password matches signs the
/// user in, with the user's id as the session cookie.
pub fn login_decision(id: i64, password_check: Option<bool>) -> (r: LoginOutcome)
    ensures
        password_check == Some(true) ==> signs_in_as(r, id),
        password_check != Some(true) ==> is_refused_login(r),
{
    match password_check {
        Some(true) => LoginOutcome::SignedIn { session_cookie: session_cookie_value(id) },
        _ => LoginOutcome::Refused(
            LoginTemplate { error: Some(String::from_str("Usuário ou senha incorretos")) },
        ),
    }
}

/// The account found for a login, by its id and the text of its stored hash.
pub open spec fn account_view(account: Option<(i64, String)>) -> Option<(i64, Seq<char>)> {
    match account {
        Some((id, hash)) => Some((id, hash@)),
        None => None,
    }
}

/// `r` answers a login with `password` for `account`: a login without an
/// account is refused; with an account it signs the user in exactly when
/// bcrypt accepts the password for the stored hash.
pub open spec fn login_answers(
    password: Seq<char>,
    account: Option<(i64, Seq<char>)>,
    r: LoginOutcome,
) -> bool {
    match account {
        None => is_refused_login(r),
        Some((id, hash)) => {
            &&& bcrypt_verify_result(password, hash) == Some(true) ==> signs_in_as(r, id)
            &&& bcrypt_verify_result(password, hash) != Some(true) ==> is_refused_login(r)
        },
    }
}

/// The answer to a submitted login form, given the account found under its
/// user name (its id and stored password hash), if any.  A missing password
/// counts as the empty one.
pub fn login_attempt(payload: &LoginPayload, account: Option<(i64, String)>) -> (r: LoginOutcome)
    ensures
        login_answers(text_or_empty(payload.password), account_view(account), r),
{
    match account {
        None => login_decision(0, None),
        Some((id, hash)) => {
            let check = match &payload.password {
                Some(p) => bcrypt_verify(p.as_str(), hash.as_str()),
                None => bcrypt_verify("", hash.as_str()),
            };
            proof {
                if payload.password is None {
                    assert(""@ =~= Seq::<char>::empty()) by {
                        reveal_strlit("");
                    }
                }
            }
            login_decision(id, check)
        },
    }
}

/// The path below the user's root that `requested` names, or the refusal of
/// a path that leaves it.
fn resolve_for(session: &UserSession, requested: &str) -> (r: Result<String, Failure>)
    ensures
        match resolved(session.root_path@, requested@) {
            Some(t) => r matches Ok(p) && p@ == t,
            None => r == Err::<String, Failure>(Failure::PathRejected),
        },
{
    match validate_and_resolve_path(session.root_path.as_str(), requested) {
        Ok(p) => Ok(p),
        Err(_) => Err(Failure::PathRejected),
    }
}

/// The directory a listing shows: the request (empty for the root) and the
/// path it resolves to.
#[derive(Debug, Clone)]
pub struct ListingTarget {
    pub requested: String,
    pub absolute: String,
}

/// The directory to list for `requested` (the root when absent): refused
/// without the read permission, or when the path leaves the user's root.
pub fn listing_target(session: &UserSession, requested: Option<String>) -> (r: Result<
    ListingTarget,
    Failure,
>)
    ensures
        !session.allow_read ==> r == Err::<ListingTarget, Failure>(Failure::ReadForbidden),
        session.allow_read ==> match resolved(session.root_path@, text_or_empty(requested)) {
            Some(t) => r matches Ok(lt) && lt.requested@ == text_or_empty(requested)
                && lt.absolute@ == t,
            None => r == Err::<ListingTarget, Failure>(Failure::PathRejected),
        },
{
    if !session.allow_read {
        return Err(Failure::ReadForbidden);
    }
    let req = match requested {
        Some(p) => p,
        None => String::new(),
    };
    let absolute = resolve_for(session, req.as_str())?;
    Ok(ListingTarget { requested: req, absolute })
}

/// What to do when the directory to list does not exist: the root of the
/// user (empty request) is created, any other request is not found.
pub fn missing_directory(requested: &str) -> (r: Result<(), Failure>)
    ensures
        requested@.len() == 0 ==> r is Ok,
        requested@.len() > 0 ==> r == Err::<(), Failure>(Failure::PathNotFound),
{
    if requested.unicode_len() == 0 {
        Ok(())
    } else {
        Err(Failure::PathNotFound)
    }
}

/// The listing page of `requested` for the user: the entries in listing
/// order, the breadcrumbs and the parent directory of the request.
pub fn files_page(session: &UserSession, requested: &str, items: Vec<FileItem>) -> (page:
    FilesTemplate)
    ensures
        page.username == session.username,
        page.is_admin == session.is_admin,
        page.allow_write == session.allow_write,
        page.current_dir_is_root == (requested@.len() == 0),
        page.parent_path@ == before_last_slash(requested@),
        page.breadcrumbs@.len() == crumb_names(requested@).len(),
        forall|i: int|
            0 <= i < page.breadcrumbs@.len() ==> is_crumb(
                #[trigger] page.breadcrumbs@[i],
                crumb_names(requested@),
                i,
            ),
        is_listing_order(page.items@),
        page.items@.to_multiset() == items@.to_multiset(),
        exists|order: Seq<int>| is_stable_arrangement(items@, page.items@, order),
{
    FilesTemplate {
        username: session.username.clone(),
        is_admin: session.is_admin,
        allow_write: session.allow_write,
        current_dir_is_root: requested.unicode_len() == 0,
        parent_path: parent_path(requested),
        breadcrumbs: breadcrumbs(requested),
        items: sort_file_items(items),
    }
}

/// The file a download of `requested` reads: refused without the read
/// permission, or when the path leaves the user's root.
pub fn download_target(session: &UserSession, requested: &str) -> (r: Result<String, Failure>)
    ensures
        !session.allow_read ==> r == Err::<String, Failure>(Failure::DownloadForbidden),
        session.allow_read ==> match resolved(session.root_path@, requested@) {
            Some(t) => r matches Ok(p) && p@ == t,
            None => r == Err::<String, Failure>(Failure::PathRejected),
        },
{
    if !session.allow_read {
        return Err(Failure::DownloadForbidden);
    }
    resolve_for(session, requested)
}

/// The directory uploads to `requested` (the root when absent) are written
/// into: refused without the write permission, or when the path leaves the
/// user's root.
pub fn upload_directory(session: &UserSession, requested: Option<String>) -> (r: Result<
    String,
    Failure,
>)
    ensures
        !session.allow_write ==> r == Err::<String, Failure>(Failure::WriteForbidden),
        session.allow_write ==> match resolved(session.root_path@, text_or_empty(requested)) {
            Some(t) => r matches Ok(p) && p@ == t,
            None => r == Err::<String, Failure>(Failure::PathRejected),
        },
{
    if !session.allow_write {
        return Err(Failure::WriteForbidden);
    }
    match requested {
        Some(p) => resolve_for(session, p.as_str()),
        None => {
            let empty = String::new();
            resolve_for(session, empty.as_str())
        },
    }
}

/// The file or directory a deletion of `requested` removes: refused without
/// the write permission, or when the path leaves the user's root.
pub fn delete_target(session: &UserSession, requested: &str) -> (r: Result<String, Failure>)
    ensures
        !session.allow_write ==> r == Err::<String, Failure>(Failure::WriteForbidden),
        session.allow_write ==> match resolved(session.root_path@, requested@) {
            Some(t) => r matches Ok(p) && p@ == t,
            None => r == Err::<String, Failure>(Failure::PathRejected),
        },
{
    if !session.allow_write {
        return Err(Failure::WriteForbidden);
    }
    resolve_for(session, requested)
}

/// The admin panel is open to admins only.
pub fn admin_panel_access(session: &UserSession) -> (r: Result<(), Failure>)
    ensures
        session.is_admin ==> r is Ok,
        !session.is_admin ==> r == Err::<(), Failure>(Failure::AdminOnly),
{
    if session.is_admin {
        Ok(())
    } else {
        Err(Failure::AdminOnly)
    }
}

impl AdminUserItem {
    /// The admin page's view of a stored user: a permission is granted when
    /// its stored integer is not zero.
    pub fn from_row(row: AdminUserDb) -> (u: AdminUserItem)
        ensures
            u.id == row.id,
            u.username == row.username,
            u.root_path == row.root_path,
            u.allow_read == (row.allow_read != 0),
            u.allow_write == (row.allow_write != 0),
            u.is_admin == (row.is_admin != 0),
    {
        AdminUserItem {
            id: row.id,
            username: row.username,
            root_path: row.root_path,
            allow_read: row.allow_read != 0,
            allow_write: row.allow_write != 0,
            is_admin: row.is_admin != 0,
        }
    }
}

/// The admin page showing the stored users, in the order given.
pub fn admin_page(rows: Vec<AdminUserDb>) -> (page: AdminTemplate)
    ensures
        page.users@.len() == rows@.len(),
        forall|i: int|
            0 <= i < rows@.len() ==> {
                let u = #[trigger] page.users@[i];
                let row = rows@[i];
                &&& u.id == row.id
                &&& u.username == row.username
                &&& u.root_path == row.root_path
                &&& u.allow_read == (row.allow_read != 0)
                &&& u.allow_write == (row.allow_write != 0)
                &&& u.is_admin == (row.is_admin != 0)
            },
{
    let ghost all = rows@;
    let mut rest = rows;
    let mut reversed: Vec<AdminUserItem> = Vec::new();
    while rest.len() > 0
        invariant
            rest@.len() + reversed@.len() == all.len(),
            rest@ == all.take(rest@.len() as int),
            forall|k: int|
                0 <= k < reversed@.len() ==> {
                    let u = #[trigger] reversed@[k];
                    let row = all[all.len() - 1 - k];
                    &&& u.id == row.id
                    &&& u.username == row.username
                    &&& u.root_path == row.root_path
                    &&& u.allow_read == (row.allow_read != 0)
                    &&& u.allow_write == (row.allow_write != 0)
                    &&& u.is_admin == (row.is_admin != 0)
                },
        decreases rest@.len(),
    {
        let ghost n = rest@.len();
        let row = rest.pop().unwrap();
        proof {
            assert(row == all[n - 1]);
            assert(rest@ =~= all.take(n - 1));
        }
        reversed.push(AdminUserItem::from_row(row));
    }
    let mut users: Vec<AdminUserItem> = Vec::new();
    while reversed.len() > 0
        invariant
            reversed@.len() + users@.len() == all.len(),
            forall|k: int|
                0 <= k < reversed@.len() ==> {
                    let u = #[trigger] reversed@[k];
                    let row = all[all.len() - 1 - k];
                    &&& u.id == row.id
                    &&& u.username == row.username
                    &&& u.root_path == row.root_path
                    &&& u.allow_read == (row.allow_read != 0)
                    &&& u.allow_write == (row.allow_write != 0)
                    &&& u.is_admin == (row.is_admin != 0)
                },
            forall|k: int|
                0 <= k < users@.len() ==> {
                    let u = #[trigger] users@[k];
                    let row = all[k];
                    &&& u.id == row.id
                    &&& u.username == row.username
                    &&& u.root_path == row.root_path
                    &&& u.allow_read == (row.allow_read != 0)
                    &&& u.allow_write == (row.allow_write != 0)
                    &&& u.is_admin == (row.is_admin != 0)
                },
        decreases reversed@.len(),
    {
        let ghost n = reversed@.len();
        let ghost prev = users@;
        let ghost old_rev = reversed@;
        let u = reversed.pop().unwrap();
        proof {
            assert(u == old_rev[n - 1]);
            assert forall|k: int| 0 <= k < reversed@.len() implies reversed@[k] == old_rev[k] by {}
        }
        users.push(u);
        proof {
            assert forall|k: int| 0 <= k < users@.len() implies {
                let u = #[trigger] users@[k];
                let row = all[k];
                &&& u.id == row.id
                &&& u.username == row.username
                &&& u.root_path == row.root_path
                &&& u.allow_read == (row.allow_read != 0)
                &&& u.allow_write == (row.allow_write != 0)
                &&& u.is_admin == (row.is_admin != 0)
            } by {
                if k < prev.len() {
                    assert(users@[k] == prev[k]);
                }
            }
        }
    }
    AdminTemplate { users }
}

/// The permission integer stored for a ticked (present) form box.
pub open spec fn permission_flag(o: Option<String>) -> i32 {
    if o is Some {
        1
    } else {
        0
    }
}

/// The row for the submitted form once its password has been hashed to
/// `password_hash`: the user name and root as given, read and write granted
/// for ticked boxes, and never an admin.
pub fn user_record(payload: CreateUserPayload, password_hash: String) -> (u: NewUser)
    ensures
        u.username == payload.username,
        u.password_hash == password_hash,
        u.root_path == payload.root_path,
        u.allow_read == permission_flag(payload.allow_read),
        u.allow_write == permission_flag(payload.allow_write),
        u.is_admin == 0,
{
    let allow_read: i32 = if payload.allow_read.is_some() {
        1
    } else {
        0
    };
    let allow_write: i32 = if payload.allow_write.is_some() {
        1
    } else {
        0
    };
    NewUser {
        username: payload.username,
        password_hash,
        root_path: payload.root_path,
        allow_read,
        allow_write,
        is_admin: 0,
    }
}

/// The row an admin creates from the submitted form: the password (empty
/// when absent) is hashed with bcrypt and the row is `user_record` of the
/// form and that hash.  Refused for users who are not admins; the hashing
/// fails only when the system gives no randomness for the salt.
pub fn new_user_record(session: &UserSession, payload: CreateUserPayload) -> (r: Result<
    NewUser,
    Failure,
>)
    ensures
        !session.is_admin ==> r == Err::<NewUser, Failure>(Failure::AccessDenied),
        session.is_admin ==> (r is Ok || r == Err::<NewUser, Failure>(
            Failure::PasswordHashUnavailable,
        )),
        r matches Ok(u) ==> {
            &&& u.username == payload.username
            &&& u.root_path == payload.root_path
            &&& u.allow_read == permission_flag(payload.allow_read)
            &&& u.allow_write == permission_flag(payload.allow_write)
            &&& u.is_admin == 0
            &&& bcrypt_verify_result(text_or_empty(payload.password), u.password_hash@)
                == Some(true)
        },
{
    if !session.is_admin {
        return Err(Failure::AccessDenied);
    }
    let hashed = match &payload.password {
        Some(p) => bcrypt_hash(p.as_str()),
        None => {
            proof {
                reveal_strlit("");
                assert(""@ =~= Seq::<char>::empty());
            }
            bcrypt_hash("")
        },
    };
    match hashed {
        Some(h) => Ok(user_record(payload, h)),
        None => Err(Failure::PasswordHashUnavailable),
    }
}

/// Whether an admin may delete the user `id`: not when they are not an
/// admin, and not their own account.
pub fn user_deletion_check(session: &UserSession, id: i64) -> (r: Result<(), Failure>)
    ensures
        !session.is_admin ==> r == Err::<(), Failure>(Failure::AccessDenied),
        session.is_admin && id == session.id ==> r == Err::<(), Failure>(Failure::SelfDeletion),
        session.is_admin && id != session.id ==> r is Ok,
{
    if !session.is_admin {
        return Err(Failure::AccessDenied);
    }
    if id == session.id {
        return Err(Failure::SelfDeletion);
    }
    Ok(())
}

/// The text of an optional string, or `default` when it is absent.
pub open spec fn text_or(o: Option<String>, default: Seq<char>) -> Seq<char> {
    match o {
        Some(s) => s@,
        None => default,
    }
}

/// The first admin's row once their password has been hashed to
/// `password_hash`: named `admin_user` (default `admin`), rooted at
/// `share_dir` (default `/data`), with every permission.
pub fn admin_record(admin_user: Option<String>, share_dir: Option<String>, password_hash: String) -> (u: NewUser)
    ensures
        u.username@ == text_or(admin_user, "admin"@),
        u.password_hash == password_hash,
        u.root_path@ == text_or(share_dir, "/data"@),
        u.allow_read == 1,
        u.allow_write == 1,
        u.is_admin == 1,
{
    let username = match admin_user {
        Some(u) => u,
        None => String::from_str("admin"),
    };
    let root_path = match share_dir {
        Some(d) => d,
        None => String::from_str("/data"),
    };
    NewUser { username, password_hash, root_path, allow_read: 1, allow_write: 1, is_admin: 1 }
}

/// The first admin, created when the database holds no user yet: the
/// password `admin_pass` (default `admin123`) is hashed with bcrypt and the
/// row is `admin_record` of the name, the directory and that hash.  Nothing
/// when users exist; the hashing fails only when the system gives no
/// randomness for the salt.
pub fn admin_seed(
    user_count: i64,
    admin_user: Option<String>,
    admin_pass: Option<String>,
    share_dir: Option<String>,
) -> (r: Result<Option<NewUser>, Failure>)
    ensures
        user_count != 0 ==> r == Ok::<Option<NewUser>, Failure>(None),
        user_count == 0 ==> (r matches Ok(Some(_)) || r == Err::<Option<NewUser>, Failure>(
            Failure::PasswordHashUnavailable,
        )),
        r matches Ok(Some(u)) ==> {
            &&& u.username@ == text_or(admin_user, "admin"@)
            &&& bcrypt_verify_result(text_or(admin_pass, "admin123"@), u.password_hash@)
                == Some(true)
            &&& u.root_path@ == text_or(share_dir, "/data"@)
            &&& u.allow_read == 1
            &&& u.allow_write == 1
            &&& u.is_admin == 1
        },
{
    if user_count != 0 {
        return Ok(None);
    }
    let password = match admin_pass {
        Some(p) => p,
        None => String::from_str("admin123"),
    };
    match bcrypt_hash(password.as_str()) {
        Some(h) => Ok(Some(admin_record(admin_user, share_dir, h))),
        None => Err(Failure::PasswordHashUnavailable),
    }
}

/// The database to open: the configured URL, or an in-memory SQLite
/// database.
pub fn database_url(configured: Option<String>) -> (r: String)
    ensures
        r@ == text_or(configured, "sqlite::memory:"@),
{
    match configured {
        Some(u) => u,
        None => String::from_str("sqlite::memory:"),
    }
}

/// The session cookie set at a successful login names the user who signed
/// in: read back on later requests it gives the same id.
pub proof fn law_login_cookie_names_user(r: LoginOutcome, id: i64)
    requires
        signs_in_as(r, id),
    ensures
        r matches LoginOutcome::SignedIn { session_cookie } && parsed_i64(session_cookie@) == Some(
            id,
        ),
{
    law_session_cookie_roundtrip(id);
}

/// A user created with a password can sign in with that password: when the
/// stored hash is one that user creation produced for the password, the
/// login for the account signs the user in, and the session cookie reads
/// back as their id.
pub proof fn law_created_user_signs_in(
    password: Seq<char>,
    stored_hash: Seq<char>,
    id: i64,
    r: LoginOutcome,
)
    requires
        bcrypt_verify_result(password, stored_hash) == Some(true),
        login_answers(password, Some((id, stored_hash)), r),
    ensures
        signs_in_as(r, id),
        r matches LoginOutcome::SignedIn { session_cookie } && parsed_i64(session_cookie@) == Some(
            id,
        ),
{
    law_session_cookie_roundtrip(id);
}

} // verus!
