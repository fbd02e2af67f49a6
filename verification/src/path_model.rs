//! The textual model of Unix paths that the resolver works on.
//!
//! A path is a sequence of characters.  Its components follow the rules of
//! `std::path::Path::components` on Unix: a leading `/` gives the root
//! component, a leading `.` segment of a relative path gives the current-dir
//! component, empty and `.` segments elsewhere vanish, and every other
//! segment is either `..` (parent) or a name.  In the sequence of components
//! the root is written `"/"`, the current directory `"."` and the parent
//! `".."`; no name can be confused with them.
use vstd::prelude::*;

verus! {

/// The segments of `p` between slashes, as `str::split('/')` yields them:
/// always one more segment than there are slashes.
pub open spec fn split_slash(p: Seq<char>) -> Seq<Seq<char>>
    decreases p.len(),
{
    if p.len() == 0 {
        seq![Seq::empty()]
    } else {
        let prev = split_slash(p.drop_last());
        if p.last() == '/' {
            prev.push(Seq::empty())
        } else {
            prev.drop_last().push(prev.last().push(p.last()))
        }
    }
}

/// The text of the root component.
pub open spec fn root_marker() -> Seq<char> {
    seq!['/']
}

/// The text of the current-directory component.
pub open spec fn cur_marker() -> Seq<char> {
    seq!['.']
}

/// The text of the parent-directory component.
pub open spec fn parent_marker() -> Seq<char> {
    seq!['.', '.']
}

/// A segment that is kept: it is not empty, and it is not `.` when
/// `skip_dot` holds.
pub open spec fn is_kept_segment(s: Seq<char>, skip_dot: bool) -> bool {
    s.len() > 0 && !(skip_dot && s == cur_marker())
}

/// The kept segments, in order.
pub open spec fn kept_segments(segs: Seq<Seq<char>>, skip_dot: bool) -> Seq<Seq<char>>
    decreases segs.len(),
{
    if segs.len() == 0 {
        seq![]
    } else {
        let k = kept_segments(segs.drop_last(), skip_dot);
        if is_kept_segment(segs.last(), skip_dot) {
            k.push(segs.last())
        } else {
            k
        }
    }
}

/// The path is absolute: it starts with `/`.
pub open spec fn is_rooted(p: Seq<char>) -> bool {
    p.len() > 0 && p[0] == '/'
}

/// A relative path whose first segment is `.`.
pub open spec fn starts_with_cur_dir(p: Seq<char>) -> bool {
    !is_rooted(p) && p.len() > 0 && p[0] == '.' && (p.len() == 1 || p[1] == '/')
}

/// The components of `p`.
pub open spec fn path_components(p: Seq<char>) -> Seq<Seq<char>> {
    (if is_rooted(p) {
        seq![root_marker()]
    } else {
        seq![]
    }) + (if starts_with_cur_dir(p) {
        seq![cur_marker()]
    } else {
        seq![]
    }) + kept_segments(split_slash(p), true)
}

/// A name component: a non-empty segment without `/` that is neither `.`
/// nor `..`.
pub open spec fn is_name(s: Seq<char>) -> bool {
    &&& s.len() > 0
    &&& s != cur_marker()
    &&& s != parent_marker()
    &&& forall|i: int| 0 <= i < s.len() ==> s[i] != '/'
}

/// Every element is a name.
pub open spec fn all_names(names: Seq<Seq<char>>) -> bool {
    forall|i: int| 0 <= i < names.len() ==> is_name(#[trigger] names[i])
}

/// The names that remain when the components are read in order: a name is
/// kept, `..` drops the last kept name (if any), and the root and
/// current-directory components are passed over.
pub open spec fn clean_names(comps: Seq<Seq<char>>) -> Seq<Seq<char>>
    decreases comps.len(),
{
    if comps.len() == 0 {
        seq![]
    } else {
        let names = clean_names(comps.drop_last());
        let c = comps.last();
        if c == parent_marker() {
            if names.len() > 0 {
                names.drop_last()
            } else {
                names
            }
        } else if c == root_marker() || c == cur_marker() {
            names
        } else {
            names.push(c)
        }
    }
}

/// The names joined by single slashes.
pub open spec fn join_names(names: Seq<Seq<char>>) -> Seq<char>
    decreases names.len(),
{
    if names.len() == 0 {
        seq![]
    } else if names.len() == 1 {
        names[0]
    } else {
        join_names(names.drop_last()) + seq!['/'] + names.last()
    }
}

/// The path text made of an optional leading `/` and the names.
pub open spec fn render(rooted: bool, names: Seq<Seq<char>>) -> Seq<char> {
    (if rooted {
        seq!['/']
    } else {
        seq![]
    }) + join_names(names)
}

/// The lexically simplified form of `p`: its names after `..` has been
/// applied, under a leading `/` when `p` is absolute.
pub open spec fn cleaned(p: Seq<char>) -> Seq<char> {
    render(is_rooted(p), clean_names(path_components(p)))
}

/// `s` without its leading slashes.
pub open spec fn trim_leading_slashes(s: Seq<char>) -> Seq<char>
    decreases s.len(),
{
    if s.len() > 0 && s[0] == '/' {
        trim_leading_slashes(s.drop_first())
    } else {
        s
    }
}

/// `base` extended by the relative path `rel`, as `Path::join` does: a slash
/// goes between them unless `base` is empty or already ends with one.
pub open spec fn join_path(base: Seq<char>, rel: Seq<char>) -> Seq<char> {
    if base.len() > 0 && base.last() != '/' {
        base + seq!['/'] + rel
    } else {
        base + rel
    }
}

/// `a` is a prefix of `b`, component by component.
pub open spec fn is_component_prefix(a: Seq<Seq<char>>, b: Seq<Seq<char>>) -> bool {
    a.len() <= b.len() && forall|i: int| 0 <= i < a.len() ==> a[i] == b[i]
}

/// The resolution of `requested` below `root`: the cleaned join of the root
/// and the request without its leading slashes, when that path still lies
/// under `root` component by component; otherwise nothing.
pub open spec fn resolved(root: Seq<char>, requested: Seq<char>) -> Option<Seq<char>> {
    let target = cleaned(join_path(root, trim_leading_slashes(requested)));
    if is_component_prefix(path_components(root), path_components(target)) {
        Some(target)
    } else {
        None
    }
}

// ---------------------------------------------------------------------
// Lemmas on splitting and joining.
pub proof fn lemma_split_nonempty(p: Seq<char>)
    ensures
        split_slash(p).len() >= 1,
    decreases p.len(),
{
    if p.len() > 0 {
        lemma_split_nonempty(p.drop_last());
    }
}

/// No segment holds a slash.
pub proof fn lemma_split_no_slash(p: Seq<char>)
    ensures
        forall|i: int, j: int|
            0 <= i < split_slash(p).len() && 0 <= j < split_slash(p)[i].len() ==> split_slash(
                p,
            )[i][j] != '/',
    decreases p.len(),
{
    if p.len() > 0 {
        lemma_split_no_slash(p.drop_last());
        lemma_split_nonempty(p.drop_last());
        let prev = split_slash(p.drop_last());
        let cur = split_slash(p);
        assert forall|i: int, j: int| 0 <= i < cur.len() && 0 <= j < cur[i].len() implies cur[i][j]
            != '/' by {
            if p.last() == '/' {
                if i < prev.len() {
                    assert(cur[i] == prev[i]);
                }
            } else {
                if i < prev.len() - 1 {
                    assert(cur[i] == prev[i]);
                } else {
                    assert(cur[i] == prev.last().push(p.last()));
                    if j < prev.last().len() {
                        assert(cur[i][j] == prev[prev.len() - 1][j]);
                    }
                }
            }
        }
    }
}

/// Splitting at a slash splits the two sides apart.
pub proof fn lemma_split_concat(x: Seq<char>, y: Seq<char>)
    ensures
        split_slash(x + seq!['/'] + y) == split_slash(x) + split_slash(y),
    decreases y.len(),
{
    let xs = x + seq!['/'];
    if y.len() == 0 {
        assert(xs + y =~= xs);
        assert(xs.drop_last() =~= x);
        assert(split_slash(x).push(Seq::empty()) =~= split_slash(x) + split_slash(y));
    } else {
        let y2 = y.drop_last();
        lemma_split_concat(x, y2);
        assert((xs + y).drop_last() =~= xs + y2);
        assert((xs + y).last() == y.last());
        lemma_split_nonempty(y2);
        let s = split_slash(x) + split_slash(y2);
        if y.last() == '/' {
            assert(s.push(Seq::empty()) =~= split_slash(x) + split_slash(y2).push(Seq::empty()));
        } else {
            let t = split_slash(y2);
            assert(s.drop_last() =~= split_slash(x) + t.drop_last());
            assert(s.last() == t.last());
            assert(s.drop_last().push(s.last().push(y.last())) =~= split_slash(x) + t.drop_last().push(
                t.last().push(y.last()),
            ));
        }
    }
}

/// A slash-free text is a single segment.
pub proof fn lemma_split_single(w: Seq<char>)
    requires
        forall|i: int| 0 <= i < w.len() ==> w[i] != '/',
    ensures
        split_slash(w) == seq![w],
    decreases w.len(),
{
    if w.len() > 0 {
        lemma_split_single(w.drop_last());
        assert(w.drop_last().push(w.last()) =~= w);
    } else {
        assert(w =~= Seq::<char>::empty());
    }
}

/// Joined names split back into the names.
pub proof fn lemma_split_join(names: Seq<Seq<char>>)
    requires
        names.len() >= 1,
        all_names(names),
    ensures
        split_slash(join_names(names)) == names,
    decreases names.len(),
{
    if names.len() == 1 {
        assert(is_name(names[0]));
        lemma_split_single(names[0]);
        assert(seq![names[0]] =~= names);
    } else {
        let init = names.drop_last();
        assert forall|i: int| 0 <= i < init.len() implies is_name(#[trigger] init[i]) by {
            assert(init[i] == names[i]);
        }
        lemma_split_join(init);
        lemma_split_concat(join_names(init), names.last());
        assert(is_name(names[names.len() - 1]));
        lemma_split_single(names.last());
        assert(init + seq![names.last()] =~= names);
    }
}

/// The segments kept from two parts are those kept from each.
pub proof fn lemma_kept_concat(a: Seq<Seq<char>>, b: Seq<Seq<char>>)
    ensures
        kept_segments(a + b, true) == kept_segments(a, true) + kept_segments(b, true),
    decreases b.len(),
{
    if b.len() == 0 {
        assert(a + b =~= a);
        assert(kept_segments(a, true) + kept_segments(b, true) =~= kept_segments(a, true));
    } else {
        lemma_kept_concat(a, b.drop_last());
        assert((a + b).drop_last() =~= a + b.drop_last());
        assert((a + b).last() == b.last());
        if is_kept_segment(b.last(), true) {
            assert((kept_segments(a, true) + kept_segments(b.drop_last(), true)).push(b.last()) =~= kept_segments(a, true)
                + kept_segments(b.drop_last(), true).push(b.last()));
        }
    }
}

/// Names are all kept.
pub proof fn lemma_kept_names(names: Seq<Seq<char>>)
    requires
        all_names(names),
    ensures
        kept_segments(names, true) == names,
    decreases names.len(),
{
    if names.len() > 0 {
        let init = names.drop_last();
        assert forall|i: int| 0 <= i < init.len() implies is_name(#[trigger] init[i]) by {
            assert(init[i] == names[i]);
        }
        lemma_kept_names(init);
        assert(is_name(names[names.len() - 1]));
        assert(init.push(names.last()) =~= names);
    }
}

/// The joined names start with the first name.
pub proof fn lemma_join_starts_with_first(names: Seq<Seq<char>>)
    requires
        names.len() >= 1,
    ensures
        join_names(names).len() >= names[0].len(),
        forall|i: int| 0 <= i < names[0].len() ==> join_names(names)[i] == names[0][i],
    decreases names.len(),
{
    if names.len() > 1 {
        let init = names.drop_last();
        lemma_join_starts_with_first(init);
        assert(init[0] == names[0]);
    }
}

/// The components of a rendered path are the optional root followed by the
/// names.
pub proof fn lemma_components_of_render(rooted: bool, names: Seq<Seq<char>>)
    requires
        all_names(names),
    ensures
        path_components(render(rooted, names)) == (if rooted {
            seq![root_marker()]
        } else {
            seq![]
        }) + names,
        is_rooted(render(rooted, names)) == rooted,
{
    let j = join_names(names);
    let r = render(rooted, names);
    let e = Seq::<char>::empty();
    lemma_kept_of_empty_segment();
    if names.len() >= 1 {
        lemma_split_join(names);
        lemma_kept_names(names);
        lemma_join_starts_with_first(names);
        assert(is_name(names[0]));
    } else {
        assert(j =~= e);
        assert(split_slash(j) == seq![e]);
    }
    let ks = kept_segments(split_slash(j), true);
    assert(ks == names);
    if rooted {
        assert(r =~= e + seq!['/'] + j);
        lemma_split_concat(e, j);
        assert(split_slash(e) == seq![e]);
        lemma_kept_concat(seq![e], split_slash(j));
        assert(kept_segments(split_slash(r), true) =~= names);
        assert(r[0] == '/');
        assert(path_components(r) =~= seq![root_marker()] + names);
    } else {
        assert(r =~= j);
        if names.len() > 0 {
            assert(names[0][0] != '/');
            if names[0].len() == 1 {
                assert(names[0] =~= seq![names[0][0]]);
                if names.len() == 1 {
                    assert(j.len() == 1);
                } else {
                    lemma_join_second(names);
                }
            } else {
                assert(names[0][1] != '/');
            }
        }
        assert(!starts_with_cur_dir(r));
        assert(path_components(r) =~= names);
        assert(Seq::<Seq<char>>::empty() + names =~= names);
    }
}

/// A lone empty segment yields no component.
pub proof fn lemma_kept_of_empty_segment()
    ensures
        kept_segments(seq![Seq::<char>::empty()], true) == Seq::<Seq<char>>::empty(),
{
    let s = seq![Seq::<char>::empty()];
    assert(s.drop_last() =~= Seq::<Seq<char>>::empty());
    assert(kept_segments(s.drop_last(), true) =~= Seq::<Seq<char>>::empty());
    assert(!is_kept_segment(s.last(), true));
}

/// With two or more names, a one-character first name is followed by a slash.
proof fn lemma_join_second(names: Seq<Seq<char>>)
    requires
        names.len() >= 2,
        names[0].len() == 1,
    ensures
        join_names(names).len() >= 2,
        join_names(names)[1] == '/',
    decreases names.len(),
{
    let init = names.drop_last();
    let j = join_names(init) + seq!['/'] + names.last();
    assert(join_names(names) == j);
    if names.len() == 2 {
        assert(init =~= seq![names[0]]);
        assert(join_names(init) == names[0]);
        assert(j[1] == '/');
    } else {
        lemma_join_second(init);
        assert(init[0] == names[0]);
        assert(j[1] == join_names(init)[1]);
    }
}

/// The names left by cleaning are names.
pub proof fn lemma_clean_names_are_names(comps: Seq<Seq<char>>)
    requires
        forall|i: int|
            0 <= i < comps.len() ==> #[trigger] comps[i] == root_marker() || comps[i]
                == cur_marker() || comps[i] == parent_marker() || is_name(comps[i]),
    ensures
        all_names(clean_names(comps)),
    decreases comps.len(),
{
    if comps.len() > 0 {
        let init = comps.drop_last();
        assert forall|i: int| 0 <= i < init.len() implies #[trigger] init[i] == root_marker()
            || init[i] == cur_marker() || init[i] == parent_marker() || is_name(init[i]) by {
            assert(init[i] == comps[i]);
        }
        lemma_clean_names_are_names(init);
        let names = clean_names(init);
        let c = comps.last();
        assert(comps[comps.len() - 1] == c);
        if c == parent_marker() {
            if names.len() > 0 {
                assert forall|i: int| 0 <= i < names.drop_last().len() implies is_name(
                    #[trigger] names.drop_last()[i],
                ) by {
                    assert(names.drop_last()[i] == names[i]);
                }
            }
        } else if c == root_marker() || c == cur_marker() {
        } else {
            assert forall|i: int| 0 <= i < names.push(c).len() implies is_name(
                #[trigger] names.push(c)[i],
            ) by {
                if i < names.len() {
                    assert(names.push(c)[i] == names[i]);
                }
            }
        }
    }
}

/// Every component of a path is a marker or a name.
pub proof fn lemma_components_kinds(p: Seq<char>)
    ensures
        forall|i: int|
            0 <= i < path_components(p).len() ==> #[trigger] path_components(p)[i]
                == root_marker() || path_components(p)[i] == cur_marker() || path_components(p)[i]
                == parent_marker() || is_name(path_components(p)[i]),
{
    let segs = split_slash(p);
    lemma_split_no_slash(p);
    lemma_kept_from(segs);
    let head = (if is_rooted(p) {
        seq![root_marker()]
    } else {
        seq![]
    }) + (if starts_with_cur_dir(p) {
        seq![cur_marker()]
    } else {
        seq![]
    });
    let k = kept_segments(segs, true);
    assert forall|i: int| 0 <= i < path_components(p).len() implies #[trigger] path_components(
        p,
    )[i] == root_marker() || path_components(p)[i] == cur_marker() || path_components(p)[i]
        == parent_marker() || is_name(path_components(p)[i]) by {
        if i >= head.len() {
            let j = i - head.len();
            assert(path_components(p)[i] == k[j]);
            let s = k[j];
            let m = choose|m: int| 0 <= m < segs.len() && segs[m] == s;
            assert forall|t: int| 0 <= t < s.len() implies s[t] != '/' by {
                assert(segs[m][t] != '/');
            }
        }
    }
}

/// Every kept segment is a kept segment of the input.
pub proof fn lemma_kept_from(segs: Seq<Seq<char>>)
    ensures
        forall|j: int|
            0 <= j < kept_segments(segs, true).len() ==> is_kept_segment(#[trigger] kept_segments(segs, true)[j], true)
                && exists|m: int| 0 <= m < segs.len() && segs[m] == kept_segments(segs, true)[j],
    decreases segs.len(),
{
    if segs.len() > 0 {
        let init = segs.drop_last();
        lemma_kept_from(init);
        let k = kept_segments(init, true);
        assert forall|j: int| 0 <= j < kept_segments(segs, true).len() implies is_kept_segment(
            #[trigger] kept_segments(segs, true)[j],
            true,
        ) && exists|m: int| 0 <= m < segs.len() && segs[m] == kept_segments(segs, true)[j] by {
            if j < k.len() {
                assert(kept_segments(segs, true)[j] == k[j]);
                let m = choose|m: int| 0 <= m < init.len() && init[m] == k[j];
                assert(segs[m] == init[m]);
            } else {
                assert(segs[segs.len() - 1] == segs.last());
            }
        }
    }
}

/// Cleaning passes over markers and keeps names that follow them.
pub proof fn lemma_clean_names_append(a: Seq<Seq<char>>, names: Seq<Seq<char>>)
    requires
        all_names(names),
    ensures
        clean_names(a + names) == clean_names(a) + names,
    decreases names.len(),
{
    if names.len() == 0 {
        assert(a + names =~= a);
        assert(clean_names(a) + names =~= clean_names(a));
    } else {
        let init = names.drop_last();
        assert forall|i: int| 0 <= i < init.len() implies is_name(#[trigger] init[i]) by {
            assert(init[i] == names[i]);
        }
        lemma_clean_names_append(a, init);
        assert((a + names).drop_last() =~= a + init);
        assert(is_name(names[names.len() - 1]));
        let c = names.last();
        assert(c.len() > 0);
        assert(c != root_marker()) by {
            if c == root_marker() {
                assert(c[0] == '/');
            }
        }
        assert((clean_names(a) + init).push(c) =~= clean_names(a) + names);
    }
}

/// The cleaned form of a path is made of names.
pub proof fn lemma_cleaned_names(p: Seq<char>)
    ensures
        all_names(clean_names(path_components(p))),
{
    lemma_components_kinds(p);
    lemma_clean_names_are_names(path_components(p));
}

// ---------------------------------------------------------------------
// Laws of resolution.

/// Cleaning is idempotent: a cleaned path is its own cleaned form.
pub proof fn law_cleaned_is_idempotent(p: Seq<char>)
    ensures
        cleaned(cleaned(p)) == cleaned(p),
{
    let r = is_rooted(p);
    let names = clean_names(path_components(p));
    lemma_cleaned_names(p);
    lemma_components_of_render(r, names);
    let head: Seq<Seq<char>> = if r {
        seq![root_marker()]
    } else {
        seq![]
    };
    lemma_clean_names_append(head, names);
    assert(clean_names(Seq::<Seq<char>>::empty()) =~= Seq::<Seq<char>>::empty());
    if r {
        assert(head.drop_last() =~= Seq::<Seq<char>>::empty());
        assert(head.last() == root_marker());
        assert(clean_names(head) =~= Seq::<Seq<char>>::empty());
    } else {
        assert(clean_names(head) =~= Seq::<Seq<char>>::empty());
    }
    assert(clean_names(head) + names =~= names);
}

/// A resolved path lies under the root: the root's components are the first
/// components of the result.
pub proof fn law_resolved_within_root(root: Seq<char>, requested: Seq<char>)
    requires
        resolved(root, requested) is Some,
    ensures
        is_component_prefix(
            path_components(root),
            path_components(resolved(root, requested)->0),
        ),
{
}

/// A request is accepted exactly when the cleaned join of the root and the
/// request begins with every component of the root, whole component for
/// whole component; the accepted path is that cleaned join.
pub proof fn law_resolution_keeps_root_components(root: Seq<char>, requested: Seq<char>)
    ensures
        ({
            let target = cleaned(join_path(root, trim_leading_slashes(requested)));
            let rc = path_components(root);
            let tc = path_components(target);
            resolved(root, requested) == if rc.len() <= tc.len() && tc.take(rc.len() as int)
                == rc {
                Some(target)
            } else {
                None::<Seq<char>>
            }
        }),
{
    let target = cleaned(join_path(root, trim_leading_slashes(requested)));
    let rc = path_components(root);
    let tc = path_components(target);
    if rc.len() <= tc.len() {
        if is_component_prefix(rc, tc) {
            assert(tc.take(rc.len() as int) =~= rc);
        }
        if tc.take(rc.len() as int) == rc {
            assert forall|i: int| 0 <= i < rc.len() implies rc[i] == tc[i] by {
                assert(tc.take(rc.len() as int)[i] == tc[i]);
            }
        }
    }
}

/// A resolved path is canonical: it holds no `.` and no `..` component, and
/// cleaning it again changes nothing.
pub proof fn law_resolved_is_canonical(root: Seq<char>, requested: Seq<char>)
    requires
        resolved(root, requested) is Some,
    ensures
        forall|i: int|
            0 <= i < path_components(resolved(root, requested)->0).len() ==> {
                let c = #[trigger] path_components(resolved(root, requested)->0)[i];
                c != parent_marker() && c != cur_marker()
            },
        cleaned(resolved(root, requested)->0) == resolved(root, requested)->0,
{
    let joined = join_path(root, trim_leading_slashes(requested));
    let t = cleaned(joined);
    let names = clean_names(path_components(joined));
    lemma_cleaned_names(joined);
    lemma_components_of_render(is_rooted(joined), names);
    law_cleaned_is_idempotent(joined);
    let comps = path_components(t);
    assert forall|i: int| 0 <= i < comps.len() implies {
        let c = #[trigger] comps[i];
        c != parent_marker() && c != cur_marker()
    } by {
        if is_rooted(joined) {
            if i == 0 {
                assert(comps[i] == root_marker());
                assert(root_marker()[0] != parent_marker()[0]);
                assert(root_marker()[0] != cur_marker()[0]);
            } else {
                assert(comps[i] == names[i - 1]);
                assert(is_name(names[i - 1]));
            }
        } else {
            assert(comps[i] == names[i]);
            assert(is_name(names[i]));
        }
    }
}

/// No segment of `s` is `..`.
pub open spec fn has_no_parent_segment(s: Seq<char>) -> bool {
    forall|i: int| 0 <= i < split_slash(s).len() ==> #[trigger] split_slash(s)[i] != parent_marker()
}

/// The optional root component.
pub open spec fn root_head(rooted: bool) -> Seq<Seq<char>> {
    if rooted {
        seq![root_marker()]
    } else {
        seq![]
    }
}

proof fn lemma_trim_not_rooted(s: Seq<char>)
    ensures
        !is_rooted(trim_leading_slashes(s)),
    decreases s.len(),
{
    if s.len() > 0 && s[0] == '/' {
        lemma_trim_not_rooted(s.drop_first());
    }
}

/// The kept segments of a text without `..` segments are names.
proof fn lemma_kept_are_names(t: Seq<char>)
    requires
        has_no_parent_segment(t),
    ensures
        all_names(kept_segments(split_slash(t), true)),
{
    let segs = split_slash(t);
    let k = kept_segments(segs, true);
    lemma_kept_from(segs);
    lemma_split_no_slash(t);
    assert forall|j: int| 0 <= j < k.len() implies is_name(#[trigger] k[j]) by {
        assert(is_kept_segment(k[j], true));
        let m = choose|m: int| 0 <= m < segs.len() && segs[m] == k[j];
        assert(segs[m] != parent_marker());
        assert forall|x: int| 0 <= x < k[j].len() implies k[j][x] != '/' by {
            assert(segs[m][x] != '/');
        }
    }
}

/// The components of a nonempty path joined with a relative text are those
/// of the path followed by the text's kept segments; the join is absolute
/// exactly when the path is.
pub proof fn lemma_join_components(r: Seq<char>, t: Seq<char>)
    requires
        r.len() > 0,
    ensures
        path_components(join_path(r, t)) == path_components(r) + kept_segments(split_slash(t), true),
        is_rooted(join_path(r, t)) == is_rooted(r),
{
    let j = join_path(r, t);
    let x = if r.last() != '/' {
        r
    } else {
        r.drop_last()
    };
    assert(j =~= x + seq!['/'] + t);
    lemma_split_concat(x, t);
    lemma_kept_concat(split_slash(x), split_slash(t));
    if r.last() == '/' {
        assert(r =~= x + seq!['/'] + Seq::<char>::empty());
        lemma_split_concat(x, Seq::<char>::empty());
        assert(split_slash(Seq::<char>::empty()) == seq![Seq::<char>::empty()]);
        lemma_kept_concat(split_slash(x), seq![Seq::<char>::empty()]);
        lemma_kept_of_empty_segment();
        assert(kept_segments(split_slash(x), true) + Seq::<Seq<char>>::empty() =~= kept_segments(
            split_slash(x),
            true,
        ));
    }
    if r.len() >= 2 {
        assert(j[0] == r[0] && j[1] == r[1]);
    } else {
        assert(j[0] == r[0]);
        if r.last() != '/' {
            assert(j[1] == '/');
        }
    }
    assert(is_rooted(j) == is_rooted(r));
    assert(starts_with_cur_dir(j) == starts_with_cur_dir(r));
    assert(path_components(j) =~= path_components(r) + kept_segments(split_slash(t), true));
}

/// Every component of `p` is the root or a name: none is `.` or `..`.
pub open spec fn has_plain_components(p: Seq<char>) -> bool {
    forall|i: int|
        0 <= i < path_components(p).len() ==> #[trigger] path_components(p)[i] != cur_marker()
            && path_components(p)[i] != parent_marker()
}

/// The components of a path made of the root and names: the optional root,
/// then its kept segments, which are names.
proof fn lemma_plain_components(p: Seq<char>)
    requires
        has_plain_components(p),
    ensures
        path_components(p) == root_head(is_rooted(p)) + kept_segments(split_slash(p), true),
        all_names(kept_segments(split_slash(p), true)),
{
    let segs = split_slash(p);
    let k = kept_segments(segs, true);
    let head = root_head(is_rooted(p));
    if starts_with_cur_dir(p) {
        assert(path_components(p)[0] == cur_marker());
    }
    assert(path_components(p) =~= head + k);
    lemma_kept_from(segs);
    lemma_split_no_slash(p);
    assert forall|j: int| 0 <= j < k.len() implies is_name(#[trigger] k[j]) by {
        assert(is_kept_segment(k[j], true));
        assert(path_components(p)[head.len() + j] == k[j]);
        let m = choose|m: int| 0 <= m < segs.len() && segs[m] == k[j];
        assert forall|x: int| 0 <= x < k[j].len() implies k[j][x] != '/' by {
            assert(segs[m][x] != '/');
        }
    }
}

/// Cleaning the optional root alone leaves no names.
proof fn lemma_clean_root_head(rooted: bool)
    ensures
        clean_names(root_head(rooted)) == Seq::<Seq<char>>::empty(),
{
    assert(clean_names(Seq::<Seq<char>>::empty()) =~= Seq::<Seq<char>>::empty());
    if rooted {
        assert(root_head(rooted).drop_last() =~= Seq::<Seq<char>>::empty());
        assert(root_head(rooted).last() == root_marker());
    }
}

/// Under a root made only of the root component and names, a request
/// without `..` segments is never refused: it resolves to the cleaned join
/// of the root and the request.
pub proof fn law_requests_without_parent_resolve(root: Seq<char>, requested: Seq<char>)
    requires
        has_plain_components(root),
        has_no_parent_segment(trim_leading_slashes(requested)),
    ensures
        resolved(root, requested) == Some(
            cleaned(join_path(root, trim_leading_slashes(requested))),
        ),
{
    let t = trim_leading_slashes(requested);
    let j = join_path(root, t);
    let k = kept_segments(split_slash(t), true);
    lemma_kept_are_names(t);
    lemma_plain_components(root);
    let nr = kept_segments(split_slash(root), true);
    let head = root_head(is_rooted(root));
    lemma_clean_root_head(is_rooted(root));
    if root.len() > 0 {
        lemma_join_components(root, t);
        assert(path_components(j) =~= head + (nr + k));
        assert(all_names(nr + k)) by {
            assert forall|i: int| 0 <= i < (nr + k).len() implies is_name(#[trigger] (nr + k)[i]) by {
                if i < nr.len() {
                    assert((nr + k)[i] == nr[i]);
                } else {
                    assert((nr + k)[i] == k[i - nr.len()]);
                }
            }
        }
        lemma_clean_names_append(head, nr + k);
        assert(clean_names(path_components(j)) =~= nr + k);
        lemma_components_of_render(is_rooted(root), nr + k);
        assert(path_components(cleaned(j)) =~= head + (nr + k));
        assert(is_component_prefix(path_components(root), path_components(cleaned(j))));
    } else {
        assert(j =~= t);
        lemma_trim_not_rooted(requested);
        let cur: Seq<Seq<char>> = if starts_with_cur_dir(t) {
            seq![cur_marker()]
        } else {
            seq![]
        };
        assert(path_components(j) =~= cur + k);
        lemma_clean_names_append(cur, k);
        assert(clean_names(Seq::<Seq<char>>::empty()) =~= Seq::<Seq<char>>::empty());
        if starts_with_cur_dir(t) {
            assert(cur.drop_last() =~= Seq::<Seq<char>>::empty());
            assert(cur.last() == cur_marker());
        }
        assert(clean_names(cur) =~= Seq::<Seq<char>>::empty());
        assert(clean_names(path_components(j)) =~= k);
        assert(path_components(root) =~= Seq::<Seq<char>>::empty()) by {
            assert(split_slash(root) == seq![Seq::<char>::empty()]);
            lemma_kept_of_empty_segment();
        }
    }
}

/// `p` taken relative to `base`, as `Path::join` does: an absolute `p`
/// replaces the base, a relative one is joined to it.
pub open spec fn path_join(base: Seq<char>, p: Seq<char>) -> Seq<char> {
    if is_rooted(p) {
        p
    } else {
        join_path(base, p)
    }
}

/// Component lists that clean to the same names still do after the same
/// components are appended to both.
proof fn lemma_clean_names_congruent(x1: Seq<Seq<char>>, x2: Seq<Seq<char>>, y: Seq<Seq<char>>)
    requires
        clean_names(x1) == clean_names(x2),
    ensures
        clean_names(x1 + y) == clean_names(x2 + y),
    decreases y.len(),
{
    if y.len() == 0 {
        assert(x1 + y =~= x1);
        assert(x2 + y =~= x2);
    } else {
        lemma_clean_names_congruent(x1, x2, y.drop_last());
        assert((x1 + y).drop_last() =~= x1 + y.drop_last());
        assert((x2 + y).drop_last() =~= x2 + y.drop_last());
        assert((x1 + y).last() == y.last());
        assert((x2 + y).last() == y.last());
    }
}

/// Cleaning a joined path does not depend on whether the base was cleaned
/// first: `a` joined with `b` cleans to what the cleaned `a` joined with `b`
/// cleans to.
pub proof fn law_clean_join(a: Seq<char>, b: Seq<char>)
    ensures
        cleaned(path_join(a, b)) == cleaned(path_join(cleaned(a), b)),
{
    let e = Seq::<Seq<char>>::empty();
    if !is_rooted(b) {
        let r = is_rooted(a);
        let n = clean_names(path_components(a));
        let ca = cleaned(a);
        let k = kept_segments(split_slash(b), true);
        if a.len() == 0 {
            assert(split_slash(a) == seq![Seq::<char>::empty()]);
            lemma_kept_of_empty_segment();
            assert(path_components(a) =~= e);
            assert(clean_names(e) =~= e);
            assert(ca =~= a);
        } else {
            lemma_cleaned_names(a);
            lemma_components_of_render(r, n);
            lemma_join_components(a, b);
            lemma_clean_names_append(root_head(r), n);
            lemma_clean_root_head(r);
            assert(clean_names(root_head(r)) + n =~= n);
            if ca.len() > 0 {
                lemma_join_components(ca, b);
                assert(path_components(ca) == root_head(r) + n);
                lemma_clean_names_congruent(path_components(a), path_components(ca), k);
            } else {
                assert(!r);
                if n.len() > 0 {
                    lemma_join_starts_with_first(n);
                    assert(is_name(n[0]));
                }
                assert(n =~= e);
                assert(join_path(ca, b) =~= b);
                let cur: Seq<Seq<char>> = if starts_with_cur_dir(b) {
                    seq![cur_marker()]
                } else {
                    seq![]
                };
                assert(path_components(b) =~= cur + k);
                assert(clean_names(e) =~= e);
                if starts_with_cur_dir(b) {
                    assert(cur.drop_last() =~= e);
                    assert(cur.last() == cur_marker());
                }
                assert(clean_names(cur) =~= e);
                lemma_clean_names_congruent(path_components(a), cur, k);
            }
        }
    }
}

/// A request is resolved the same with or without leading slashes: it is
/// always taken relative to the root.
pub proof fn law_leading_slashes_ignored(root: Seq<char>, requested: Seq<char>)
    ensures
        resolved(root, seq!['/'] + requested) == resolved(root, requested),
{
    let s = seq!['/'] + requested;
    assert(s.drop_first() =~= requested);
    assert(trim_leading_slashes(s) == trim_leading_slashes(requested));
}

} // verus!
