//! The text that the file pages are built from: entries, breadcrumbs, parent
//! directories, upload targets and download headers.
use vstd::prelude::*;

use crate::path_model::{
    cur_marker, is_kept_segment, is_name, join_names, join_path, kept_segments,
    lemma_join_components, lemma_kept_of_empty_segment, lemma_split_single, parent_marker,
    path_components, root_marker, split_slash, starts_with_cur_dir,
};
use crate::path_utils::{
    component_ranges, lemma_ranges_index, range_is, range_text, ranges_text, ranges_within,
    segment_ranges,
};
use crate::text::{chars_of, last_slash, push_char, push_chars, push_str, string_of_range};

verus! {

/// One step of the path shown above a listing.
#[derive(Debug, Clone)]
pub struct Breadcrumb {
    pub name: String,
    pub path: String,
}

/// One entry of a directory listing.
#[derive(Debug, Clone)]
pub struct FileItem {
    pub name: String,
    pub relative_path: String,
    pub is_dir: bool,
    pub size: String,
}

/// `r` holds a `/`.
pub open spec fn has_slash(r: Seq<char>) -> bool {
    exists|i: int| 0 <= i < r.len() && r[i] == '/'
}

/// The text before the last `/` of `r`; empty when `r` holds none.
pub open spec fn before_last_slash(r: Seq<char>) -> Seq<char>
    decreases r.len(),
{
    if r.len() == 0 {
        seq![]
    } else if r.last() == '/' {
        r.drop_last()
    } else {
        before_last_slash(r.drop_last())
    }
}

/// The text after the last `/` of `r`; all of `r` when it holds none.
pub open spec fn after_last_slash(r: Seq<char>) -> Seq<char>
    decreases r.len(),
{
    if r.len() == 0 {
        seq![]
    } else if r.last() == '/' {
        seq![]
    } else {
        after_last_slash(r.drop_last()).push(r.last())
    }
}

proof fn lemma_before_last_slash(r: Seq<char>, j: int)
    requires
        0 <= j < r.len(),
        r[j] == '/',
        forall|k: int| j < k < r.len() ==> r[k] != '/',
    ensures
        before_last_slash(r) == r.take(j),
    decreases r.len(),
{
    if j == r.len() - 1 {
        assert(r.drop_last() =~= r.take(j));
    } else {
        lemma_before_last_slash(r.drop_last(), j);
        assert(r.drop_last().take(j) =~= r.take(j));
    }
}

proof fn lemma_no_slash(r: Seq<char>)
    requires
        forall|k: int| 0 <= k < r.len() ==> r[k] != '/',
    ensures
        before_last_slash(r) == Seq::<char>::empty(),
        !has_slash(r),
    decreases r.len(),
{
    if r.len() > 0 {
        lemma_no_slash(r.drop_last());
    }
}

/// The directory above `requested`: the text before its last `/`, or
/// nothing when it holds no `/`.
pub fn parent_path(requested: &str) -> (r: String)
    ensures
        r@ == before_last_slash(requested@),
{
    let p = chars_of(requested);
    match last_slash(&p) {
        Some(j) => {
            proof {
                lemma_before_last_slash(p@, j as int);
            }
            string_of_range(&p, 0, j)
        },
        None => {
            proof {
                lemma_no_slash(p@);
            }
            String::new()
        },
    }
}

/// The page shown after `requested` has been deleted: the listing of the
/// directory above it.
pub open spec fn deletion_redirect(requested: Seq<char>) -> Seq<char> {
    "/files"@ + if has_slash(requested) {
        seq!['/'] + before_last_slash(requested)
    } else {
        seq![]
    }
}

/// The location the client is sent to once `requested` has been deleted.
pub fn delete_redirect(requested: &str) -> (r: String)
    ensures
        r@ == deletion_redirect(requested@),
{
    let p = chars_of(requested);
    let mut r = String::from_str("/files");
    match last_slash(&p) {
        Some(j) => {
            proof {
                lemma_before_last_slash(p@, j as int);
            }
            push_char(&mut r, '/');
            push_chars(&mut r, &p, 0, j);
            proof {
                assert(p@.take(j as int) =~= p@.subrange(0, j as int));
                assert(has_slash(p@));
            }
        },
        None => {
            proof {
                lemma_no_slash(p@);
            }
        },
    }
    proof {
        assert(r@ =~= deletion_redirect(requested@));
    }
    r
}

/// The path of an entry named `name` within the listed directory
/// `requested`, relative to the user's root.
pub open spec fn entry_path(requested: Seq<char>, name: Seq<char>) -> Seq<char> {
    if requested.len() == 0 {
        name
    } else {
        requested + seq!['/'] + name
    }
}

impl FileItem {
    /// The listing entry for `name` in the directory `requested`: a
    /// directory shows `-` as its size, a file shows `file_size`.
    pub fn entry(requested: &str, name: String, is_dir: bool, file_size: String) -> (item:
        FileItem)
        ensures
            item.name@ == name@,
            item.relative_path@ == entry_path(requested@, name@),
            item.is_dir == is_dir,
            item.size@ == (if is_dir {
                "-"@
            } else {
                file_size@
            }),
    {
        let mut relative_path = String::from_str(requested);
        if requested.unicode_len() > 0 {
            push_char(&mut relative_path, '/');
        }
        push_str(&mut relative_path, name.as_str());
        proof {
            assert(relative_path@ =~= entry_path(requested@, name@));
        }
        let size = if is_dir {
            String::from_str("-")
        } else {
            file_size
        };
        FileItem { name, relative_path, is_dir, size }
    }
}

/// The names of the breadcrumbs of `requested`: its non-empty segments.
pub open spec fn crumb_names(requested: Seq<char>) -> Seq<Seq<char>> {
    kept_segments(split_slash(requested), false)
}

/// The breadcrumb at position `k` of `names`: it names `names[k]` and the
/// path made of the names up to it.
pub open spec fn is_crumb(c: Breadcrumb, names: Seq<Seq<char>>, k: int) -> bool {
    c.name@ == names[k] && c.path@ == join_names(names.take(k + 1))
}

/// The breadcrumbs of `requested`: one per non-empty segment, each naming
/// the segment and the path made of the segments up to it.
pub fn breadcrumbs(requested: &str) -> (crumbs: Vec<Breadcrumb>)
    ensures
        crumbs@.len() == crumb_names(requested@).len(),
        forall|i: int|
            0 <= i < crumbs@.len() ==> is_crumb(#[trigger] crumbs@[i], crumb_names(requested@), i),
{
    let p = chars_of(requested);
    let parts = segment_ranges(&p, false);
    let ghost names = ranges_text(p@, parts@);
    let mut crumbs: Vec<Breadcrumb> = Vec::new();
    let mut acc = String::new();
    let mut i: usize = 0;
    while i < parts.len()
        invariant
            i <= parts@.len(),
            names == ranges_text(p@, parts@),
            names == crumb_names(p@),
            ranges_within(p@, parts@),
            crumbs@.len() == i,
            forall|k: int| 0 <= k < i ==> is_crumb(#[trigger] crumbs@[k], names, k),
            acc@ == join_names(names.take(i as int)),
        decreases parts@.len() - i,
    {
        let r = parts[i];
        proof {
            lemma_ranges_index(p@, parts@, i as int);
        }
        if i > 0 {
            push_char(&mut acc, '/');
        }
        push_chars(&mut acc, &p, r.0, r.1);
        proof {
            let t = names.take(i + 1);
            assert(t.drop_last() =~= names.take(i as int));
            assert(t.last() == names[i as int]);
            if i == 0 {
                assert(names.take(0) =~= Seq::<Seq<char>>::empty());
                assert(acc@ =~= join_names(t));
            } else {
                assert(acc@ =~= join_names(t));
            }
        }
        let name = string_of_range(&p, r.0, r.1);
        let path = acc.clone();
        proof {
            assert(name@ == names[i as int]);
            assert(path@ == join_names(names.take(i + 1)));
        }
        let crumb = Breadcrumb { name, path };
        let ghost c = crumb;
        let ghost prev = crumbs@;
        proof {
            assert(is_crumb(c, names, i as int));
        }
        crumbs.push(crumb);
        proof {
            assert(crumbs@ == prev.push(c));
            assert forall|k: int| 0 <= k < i + 1 implies is_crumb(#[trigger] crumbs@[k], names, k) by {
                if k < i {
                    assert(crumbs@[k] == prev[k]);
                } else {
                    assert(crumbs@[k] == c);
                }
            }
        }
        i += 1;
    }
    crumbs
}

/// A control character, as `char::is_control` tells them: the C0 and C1
/// control codes.
pub open spec fn is_control_char(c: char) -> bool {
    c <= '\u{1f}' || ('\u{7f}' <= c && c <= '\u{9f}')
}

/// `name` without its control characters and with every `/` written `_`.
pub open spec fn sanitized(name: Seq<char>) -> Seq<char>
    decreases name.len(),
{
    if name.len() == 0 {
        seq![]
    } else {
        let prev = sanitized(name.drop_last());
        let c = name.last();
        if is_control_char(c) {
            prev
        } else if c == '/' {
            prev.push('_')
        } else {
            prev.push(c)
        }
    }
}

/// The name an uploaded file is stored under: the name the client gave,
/// without control characters and with `/` replaced by `_`.
pub fn sanitize_file_name(name: &str) -> (r: String)
    ensures
        r@ == sanitized(name@),
{
    let p = chars_of(name);
    let mut r = String::new();
    let mut i: usize = 0;
    proof {
        assert(p@.take(0) =~= Seq::<char>::empty());
    }
    while i < p.len()
        invariant
            i <= p.len(),
            r@ == sanitized(p@.take(i as int)),
        decreases p.len() - i,
    {
        let c = p[i];
        proof {
            assert(p@.take(i + 1).drop_last() =~= p@.take(i as int));
            assert(p@.take(i + 1).last() == c);
        }
        if c <= '\u{1f}' || ('\u{7f}' <= c && c <= '\u{9f}') {
        } else if c == '/' {
            push_char(&mut r, '_');
        } else {
            push_char(&mut r, c);
        }
        i += 1;
    }
    proof {
        assert(p@.take(p@.len() as int) =~= p@);
    }
    r
}

/// The text of an optional string slice.
pub open spec fn str_opt_view(o: Option<&str>) -> Option<Seq<char>> {
    match o {
        Some(s) => Some(s@),
        None => None,
    }
}

/// The text of an optional string.
pub open spec fn string_opt_view(o: Option<String>) -> Option<Seq<char>> {
    match o {
        Some(s) => Some(s@),
        None => None,
    }
}

/// Where an uploaded part is written: nothing for a part without a file
/// name or with an empty one, otherwise the upload directory `base` joined
/// with the sanitized name.
pub open spec fn upload_destination_of(base: Seq<char>, file_name: Option<Seq<char>>) -> Option<
    Seq<char>,
> {
    match file_name {
        None => None,
        Some(n) => if n.len() == 0 {
            None
        } else {
            Some(join_path(base, sanitized(n)))
        },
    }
}

/// The file an uploaded part is written to (see `upload_destination_of`).
pub fn upload_destination(base: &str, file_name: Option<&str>) -> (r: Option<String>)
    ensures
        string_opt_view(r) == upload_destination_of(base@, str_opt_view(file_name)),
{
    match file_name {
        None => None,
        Some(n) => {
            if n.unicode_len() == 0 {
                None
            } else {
                let safe = sanitize_file_name(n);
                let b = chars_of(base);
                let mut r = String::from_str(base);
                if b.len() > 0 && b[b.len() - 1] != '/' {
                    push_char(&mut r, '/');
                }
                push_str(&mut r, safe.as_str());
                proof {
                    assert(r@ =~= join_path(base@, sanitized(n@)));
                }
                Some(r)
            }
        },
    }
}

/// The file name of `p`, as `Path::file_name` gives it: its last component
/// when that is a name.
pub open spec fn file_name_of(p: Seq<char>) -> Option<Seq<char>> {
    let comps = path_components(p);
    if comps.len() > 0 && comps.last() != root_marker() && comps.last() != cur_marker()
        && comps.last() != parent_marker() {
        Some(comps.last())
    } else {
        None
    }
}

/// The `Content-Disposition` value of a download of the file `name`.
pub open spec fn attachment_header(name: Seq<char>) -> Seq<char> {
    "attachment; filename=\""@ + name + "\""@
}

/// The `Content-Disposition` header of a download of the file at `path`;
/// nothing when the path has no file name.
pub fn content_disposition(path: &str) -> (r: Option<String>)
    ensures
        match file_name_of(path@) {
            Some(n) => r matches Some(h) && h@ == attachment_header(n) && h@
                == "attachment; filename=\""@ + n + "\""@,
            None => r is None,
        },
{
    let p = chars_of(path);
    let comps = component_ranges(&p);
    if comps.len() == 0 {
        return None;
    }
    let last = comps[comps.len() - 1];
    proof {
        lemma_ranges_index(p@, comps@, comps@.len() - 1);
        assert(path_components(p@).last() == range_text(p@, last));
    }
    let root = ['/'];
    let cur = ['.'];
    let parent = ['.', '.'];
    if range_is(&p, last, &root) || range_is(&p, last, &cur) || range_is(&p, last, &parent) {
        proof {
            assert(root@ == root_marker());
            assert(cur@ == cur_marker());
            assert(parent@ == parent_marker());
        }
        return None;
    }
    proof {
        assert(root@ == root_marker());
        assert(cur@ == cur_marker());
        assert(parent@ == parent_marker());
    }
    let mut h = String::from_str("attachment; filename=\"");
    push_chars(&mut h, &p, last.0, last.1);
    push_str(&mut h, "\"");
    proof {
        assert(h@ =~= attachment_header(range_text(p@, last)));
    }
    Some(h)
}

/// A request that holds a slash is its parent directory, a slash and the
/// last name.
pub proof fn law_parent_slash_name(r: Seq<char>)
    requires
        has_slash(r),
    ensures
        before_last_slash(r) + seq!['/'] + after_last_slash(r) == r,
    decreases r.len(),
{
    if r.last() == '/' {
        assert(r.drop_last().push('/') =~= r);
        assert(before_last_slash(r) + seq!['/'] + Seq::<char>::empty() =~= r);
    } else {
        let w = choose|i: int| 0 <= i < r.len() && r[i] == '/';
        assert(w < r.len() - 1);
        assert(r.drop_last()[w] == '/');
        law_parent_slash_name(r.drop_last());
        assert(before_last_slash(r.drop_last()) + seq!['/'] + after_last_slash(r.drop_last()).push(
            r.last(),
        ) =~= (before_last_slash(r.drop_last()) + seq!['/'] + after_last_slash(r.drop_last())).push(
            r.last(),
        ));
        assert(r.drop_last().push(r.last()) =~= r);
    }
}

/// A sanitized name holds neither a slash nor a control character.
pub proof fn law_sanitized_is_plain(name: Seq<char>)
    ensures
        forall|i: int|
            0 <= i < sanitized(name).len() ==> #[trigger] sanitized(name)[i] != '/'
                && !is_control_char(sanitized(name)[i]),
    decreases name.len(),
{
    if name.len() > 0 {
        law_sanitized_is_plain(name.drop_last());
        let prev = sanitized(name.drop_last());
        assert forall|i: int| 0 <= i < sanitized(name).len() implies #[trigger] sanitized(name)[i]
            != '/' && !is_control_char(sanitized(name)[i]) by {
            if i < prev.len() {
                assert(sanitized(name)[i] == prev[i]);
            }
        }
    }
}

/// Sanitizing a sanitized name changes nothing.
pub proof fn law_sanitize_idempotent(name: Seq<char>)
    ensures
        sanitized(sanitized(name)) == sanitized(name),
    decreases name.len(),
{
    if name.len() > 0 {
        law_sanitize_idempotent(name.drop_last());
        let prev = sanitized(name.drop_last());
        let c = name.last();
        if !is_control_char(c) {
            let d = if c == '/' {
                '_'
            } else {
                c
            };
            assert(prev.push(d).drop_last() =~= prev);
            assert(!is_control_char(d));
        }
    }
}

/// An uploaded file whose sanitized name is a name (not empty, `.` or `..`)
/// is written directly inside the upload directory: its path has the
/// directory's components and then that name.
pub proof fn law_upload_stays_in_directory(base: Seq<char>, name: Seq<char>)
    requires
        is_name(sanitized(name)),
    ensures
        upload_destination_of(base, Some(name)) == Some(join_path(base, sanitized(name))),
        path_components(join_path(base, sanitized(name))) == path_components(base).push(
            sanitized(name),
        ),
{
    let n = sanitized(name);
    if name.len() == 0 {
        assert(n.len() == 0);
    }
    lemma_split_single(n);
    assert(is_kept_segment(n, true));
    assert(seq![n].drop_last() =~= Seq::<Seq<char>>::empty());
    assert(kept_segments(seq![n], true) =~= seq![n]) by {
        assert(kept_segments(Seq::<Seq<char>>::empty(), true) =~= Seq::<Seq<char>>::empty());
    }
    if base.len() > 0 {
        lemma_join_components(base, n);
        assert(path_components(base) + seq![n] =~= path_components(base).push(n));
    } else {
        assert(join_path(base, n) =~= n);
        assert(split_slash(base) == seq![Seq::<char>::empty()]);
        lemma_kept_of_empty_segment();
        assert(path_components(base) =~= Seq::<Seq<char>>::empty());
        assert(n[0] != '/');
        if n.len() == 1 {
            assert(n =~= seq![n[0]]);
        } else {
            assert(n[1] != '/');
        }
        assert(!starts_with_cur_dir(n));
        assert(path_components(n) =~= seq![n]);
    }
}

/// The sanitized name of a single character: nothing for a control
/// character, `_` for `/`, the character itself otherwise.
pub proof fn law_sanitize_single_char(c: char)
    ensures
        is_control_char(c) ==> sanitized(seq![c]) == Seq::<char>::empty(),
        c == '/' ==> sanitized(seq![c]) == seq!['_'],
        !is_control_char(c) && c != '/' ==> sanitized(seq![c]) == seq![c],
{
    assert(seq![c].drop_last() =~= Seq::<char>::empty());
    assert(sanitized(Seq::<char>::empty()) =~= Seq::<char>::empty());
    assert(seq![c].last() == c);
    assert(Seq::<char>::empty().push(c) =~= seq![c]);
    assert(Seq::<char>::empty().push('_') =~= seq!['_']);
}

/// Sanitizing works character by character: the sanitized form of two
/// texts one after the other is their sanitized forms one after the other.
pub proof fn law_sanitize_concat(a: Seq<char>, b: Seq<char>)
    ensures
        sanitized(a + b) == sanitized(a) + sanitized(b),
    decreases b.len(),
{
    if b.len() == 0 {
        assert(a + b =~= a);
        assert(sanitized(a) + sanitized(b) =~= sanitized(a));
    } else {
        law_sanitize_concat(a, b.drop_last());
        assert((a + b).drop_last() =~= a + b.drop_last());
        assert((a + b).last() == b.last());
        let c = b.last();
        let sa = sanitized(a);
        let sb = sanitized(b.drop_last());
        assert((sa + sb).push(c) =~= sa + sb.push(c));
        assert((sa + sb).push('_') =~= sa + sb.push('_'));
    }
}

/// Every character that is neither a control character nor `/` is kept, in
/// place: appending one to a name appends it to the sanitized name.
pub proof fn law_sanitize_keeps_plain_char(name: Seq<char>, c: char)
    requires
        !is_control_char(c),
        c != '/',
    ensures
        sanitized(name.push(c)) == sanitized(name).push(c),
{
    law_sanitize_concat(name, seq![c]);
    law_sanitize_single_char(c);
    assert(name + seq![c] =~= name.push(c));
    assert(sanitized(name) + seq![c] =~= sanitized(name).push(c));
}

/// A name without control characters and slashes is stored as given.
pub proof fn law_sanitize_plain_name_unchanged(name: Seq<char>)
    requires
        forall|i: int| 0 <= i < name.len() ==> !is_control_char(#[trigger] name[i]) && name[i]
            != '/',
    ensures
        sanitized(name) == name,
    decreases name.len(),
{
    if name.len() > 0 {
        let init = name.drop_last();
        assert forall|i: int| 0 <= i < init.len() implies !is_control_char(#[trigger] init[i])
            && init[i] != '/' by {
            assert(init[i] == name[i]);
        }
        law_sanitize_plain_name_unchanged(init);
        assert(!is_control_char(name[name.len() - 1]));
        assert(init.push(name.last()) =~= name);
    }
}

/// The download header quotes the file name unchanged: it is
/// `attachment; filename="`, the name exactly as it stands in the path, and
/// a closing quote.
pub proof fn law_download_header_quotes_name(path: Seq<char>)
    requires
        file_name_of(path) is Some,
    ensures
        attachment_header(file_name_of(path)->0) == "attachment; filename=\""@ + file_name_of(
            path,
        )->0 + "\""@,
{
}

/// The file name of a directory joined with a name is that name.
pub proof fn law_file_name_of_joined_name(dir: Seq<char>, name: Seq<char>)
    requires
        is_name(name),
    ensures
        file_name_of(join_path(dir, name)) == Some(name),
{
    lemma_split_single(name);
    assert(is_kept_segment(name, true));
    assert(seq![name].drop_last() =~= Seq::<Seq<char>>::empty());
    assert(kept_segments(seq![name], true) =~= seq![name]) by {
        assert(kept_segments(Seq::<Seq<char>>::empty(), true) =~= Seq::<Seq<char>>::empty());
    }
    let comps = path_components(join_path(dir, name));
    if dir.len() > 0 {
        lemma_join_components(dir, name);
        assert(comps.last() == name);
    } else {
        assert(join_path(dir, name) =~= name);
        assert(name[0] != '/');
        if name.len() == 1 {
            assert(name =~= seq![name[0]]);
        } else {
            assert(name[1] != '/');
        }
        assert(!starts_with_cur_dir(name));
        assert(comps =~= seq![name]);
    }
    assert(name != root_marker()) by {
        if name == root_marker() {
            assert(name[0] == '/');
        }
    }
}

/// After a deletion the client returns to the listing of the directory
/// that held the deleted item: `/files`, then (when the request holds a
/// slash) a slash and everything of the request before its last slash, so
/// that a slash and a slash-free last name complete it to `/files/` and the
/// request.
pub proof fn law_deletion_returns_to_parent(requested: Seq<char>)
    ensures
        !has_slash(requested) ==> deletion_redirect(requested) == "/files"@,
        has_slash(requested) ==> exists|last: Seq<char>|
            (forall|i: int| 0 <= i < last.len() ==> #[trigger] last[i] != '/') && deletion_redirect(
                requested,
            ) + seq!['/'] + last == "/files/"@ + requested,
{
    if !has_slash(requested) {
        assert("/files"@ + Seq::<char>::empty() =~= "/files"@);
    } else {
        law_parent_slash_name(requested);
        let last = after_last_slash(requested);
        lemma_after_last_slash_plain(requested);
        reveal_strlit("/files");
        reveal_strlit("/files/");
        assert(deletion_redirect(requested) + seq!['/'] + last =~= "/files/"@ + (before_last_slash(
            requested,
        ) + seq!['/'] + last));
    }
}

/// The text after the last slash holds no slash.
proof fn lemma_after_last_slash_plain(r: Seq<char>)
    ensures
        forall|i: int| 0 <= i < after_last_slash(r).len() ==> #[trigger] after_last_slash(r)[i]
            != '/',
    decreases r.len(),
{
    if r.len() > 0 && r.last() != '/' {
        lemma_after_last_slash_plain(r.drop_last());
        let prev = after_last_slash(r.drop_last());
        assert forall|i: int| 0 <= i < after_last_slash(r).len() implies #[trigger] after_last_slash(
            r,
        )[i] != '/' by {
            if i < prev.len() {
                assert(after_last_slash(r)[i] == prev[i]);
            }
        }
    }
}

/// Each breadcrumb's path is the previous one's, a slash, and its name.
pub proof fn law_breadcrumb_paths_extend(requested: Seq<char>, i: int)
    requires
        0 < i < crumb_names(requested).len(),
    ensures
        join_names(crumb_names(requested).take(i + 1)) == join_names(
            crumb_names(requested).take(i),
        ) + seq!['/'] + crumb_names(requested)[i],
{
    let names = crumb_names(requested);
    assert(names.take(i + 1).drop_last() =~= names.take(i));
    assert(names.take(i + 1).last() == names[i]);
}

} // verus!
