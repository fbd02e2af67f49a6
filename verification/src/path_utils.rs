//! Resolution of a requested path below a user's root directory, done on the
//! text of the paths alone (no file system access).
use vstd::prelude::*;

use crate::path_model::{
    clean_names, cleaned, cur_marker, is_component_prefix, is_kept_segment, is_rooted, join_names,
    join_path, kept_segments, lemma_cleaned_names, lemma_components_of_render, lemma_split_nonempty,
    parent_marker, path_components, render, resolved, root_marker, split_slash,
    starts_with_cur_dir, trim_leading_slashes,
};
use crate::text::{chars_of, push_char};

verus! {

/// The text of the range `r` of `p`.
pub open spec fn range_text(p: Seq<char>, r: (usize, usize)) -> Seq<char> {
    p.subrange(r.0 as int, r.1 as int)
}

/// The texts of the ranges `rs` of `p`.
pub open spec fn ranges_text(p: Seq<char>, rs: Seq<(usize, usize)>) -> Seq<Seq<char>> {
    rs.map_values(|r: (usize, usize)| range_text(p, r))
}

/// Every range lies within `p`.
pub open spec fn ranges_within(p: Seq<char>, rs: Seq<(usize, usize)>) -> bool {
    forall|i: int| 0 <= i < rs.len() ==> #[trigger] rs[i].0 <= rs[i].1 <= p.len()
}

/// The error text of a rejected resolution.
pub open spec fn traversal_message() -> Seq<char> {
    "Acesso negado: Tentativa de Directory Traversal detectada"@
}

proof fn lemma_ranges_push(p: Seq<char>, rs: Seq<(usize, usize)>, r: (usize, usize))
    ensures
        ranges_text(p, rs.push(r)) == ranges_text(p, rs).push(range_text(p, r)),
{
    assert(ranges_text(p, rs.push(r)) =~= ranges_text(p, rs).push(range_text(p, r)));
}

proof fn lemma_ranges_drop_last(p: Seq<char>, rs: Seq<(usize, usize)>)
    requires
        rs.len() > 0,
    ensures
        ranges_text(p, rs.drop_last()) == ranges_text(p, rs).drop_last(),
{
    assert(ranges_text(p, rs.drop_last()) =~= ranges_text(p, rs).drop_last());
}

/// The text of one range of a sequence of ranges.
pub proof fn lemma_ranges_index(p: Seq<char>, rs: Seq<(usize, usize)>, i: int)
    requires
        ranges_within(p, rs),
        0 <= i < rs.len(),
    ensures
        ranges_text(p, rs)[i] == range_text(p, rs[i]),
        rs[i].0 <= rs[i].1 <= p.len(),
{
}

/// The ranges of `p` that hold its kept segments (see `kept_segments`).
pub(crate) fn segment_ranges(p: &Vec<char>, skip_dot: bool) -> (rs: Vec<(usize, usize)>)
    ensures
        ranges_within(p@, rs@),
        ranges_text(p@, rs@) == kept_segments(split_slash(p@), skip_dot),
{
    let n = p.len();
    let mut rs: Vec<(usize, usize)> = Vec::new();
    proof {
        assert(p@.take(0) =~= Seq::<char>::empty());
        assert(split_slash(p@.take(0)) == seq![Seq::<char>::empty()]);
        assert(seq![Seq::<char>::empty()].drop_last() =~= Seq::<Seq<char>>::empty());
        assert(p@.subrange(0, 0) =~= Seq::<char>::empty());
        assert(ranges_text(p@, rs@) =~= kept_segments(Seq::<Seq<char>>::empty(), skip_dot));
    }
    let mut start: usize = 0;
    let mut i: usize = 0;
    while i < n
        invariant
            n == p.len(),
            start <= i <= n,
            ranges_within(p@, rs@),
            split_slash(p@.take(i as int)).len() >= 1,
            split_slash(p@.take(i as int)).last() == p@.subrange(start as int, i as int),
            ranges_text(p@, rs@) == kept_segments(
                split_slash(p@.take(i as int)).drop_last(),
                skip_dot,
            ),
        decreases n - i,
    {
        let ghost segs = split_slash(p@.take(i as int));
        proof {
            assert(p@.take(i + 1).drop_last() =~= p@.take(i as int));
            assert(p@.take(i + 1).last() == p@[i as int]);
            assert(segs.drop_last().push(segs.last()) =~= segs);
        }
        if p[i] == '/' {
            let ghost seg = p@.subrange(start as int, i as int);
            proof {
                assert(split_slash(p@.take(i + 1)) == segs.push(Seq::empty()));
                assert(segs.push(Seq::<char>::empty()).drop_last() =~= segs);
                if i - start == 1 {
                    assert(seg =~= seq![p@[start as int]]);
                }
            }
            if start < i && !(skip_dot && i - start == 1 && p[start] == '.') {
                proof {
                    lemma_ranges_push(p@, rs@, (start, i));
                    assert(seg != cur_marker() || !skip_dot) by {
                        if seg == cur_marker() {
                            assert(seg.len() == 1 && seg[0] == '.');
                        }
                    }
                    assert(is_kept_segment(seg, skip_dot));
                }
                rs.push((start, i));
            } else {
                proof {
                    assert(!is_kept_segment(seg, skip_dot));
                }
            }
            start = i + 1;
            proof {
                lemma_split_nonempty(p@.take(i + 1));
                assert(p@.subrange(start as int, i + 1) =~= Seq::<char>::empty());
            }
        } else {
            proof {
                assert(p@.subrange(start as int, i + 1) =~= p@.subrange(start as int, i as int).push(
                    p@[i as int],
                ));
                assert(split_slash(p@.take(i + 1)).drop_last() =~= segs.drop_last());
            }
        }
        i += 1;
    }
    let ghost segs = split_slash(p@.take(n as int));
    let ghost seg = p@.subrange(start as int, n as int);
    proof {
        assert(p@.take(n as int) =~= p@);
        assert(segs.drop_last().push(segs.last()) =~= segs);
        if n - start == 1 {
            assert(seg =~= seq![p@[start as int]]);
        }
    }
    if start < n && !(skip_dot && n - start == 1 && p[start] == '.') {
        proof {
            lemma_ranges_push(p@, rs@, (start, n));
            assert(seg != cur_marker() || !skip_dot) by {
                if seg == cur_marker() {
                    assert(seg.len() == 1 && seg[0] == '.');
                }
            }
            assert(is_kept_segment(seg, skip_dot));
        }
        rs.push((start, n));
    } else {
        proof {
            assert(!is_kept_segment(seg, skip_dot));
        }
    }
    rs
}

/// The ranges of `p` that hold its components.
pub(crate) fn component_ranges(p: &Vec<char>) -> (rs: Vec<(usize, usize)>)
    ensures
        ranges_within(p@, rs@),
        ranges_text(p@, rs@) == path_components(p@),
{
    let n = p.len();
    let mut rs: Vec<(usize, usize)> = Vec::new();
    let rooted = n > 0 && p[0] == '/';
    if rooted {
        rs.push((0, 1));
    }
    if !rooted && n > 0 && p[0] == '.' && (n == 1 || p[1] == '/') {
        rs.push((0, 1));
    }
    let ghost head = ranges_text(p@, rs@);
    proof {
        if rs@.len() > 0 {
            assert(p@.subrange(0, 1) =~= seq![p@[0]]);
        }
        assert(head =~= (if is_rooted(p@) {
            seq![root_marker()]
        } else {
            seq![]
        }) + (if starts_with_cur_dir(p@) {
            seq![cur_marker()]
        } else {
            seq![]
        }));
    }
    let mut segs = segment_ranges(p, true);
    let ghost before = rs@;
    let ghost tail = segs@;
    rs.append(&mut segs);
    proof {
        assert(rs@ == before + tail);
        assert(ranges_text(p@, rs@) =~= head + ranges_text(p@, tail));
    }
    rs
}

/// The two ranges hold the same text.
fn same_text(p: &Vec<char>, a: (usize, usize), q: &Vec<char>, b: (usize, usize)) -> (r: bool)
    requires
        a.0 <= a.1 <= p.len(),
        b.0 <= b.1 <= q.len(),
    ensures
        r == (range_text(p@, a) == range_text(q@, b)),
{
    if a.1 - a.0 != b.1 - b.0 {
        proof {
            assert(range_text(p@, a).len() != range_text(q@, b).len());
        }
        return false;
    }
    let len = a.1 - a.0;
    let mut k: usize = 0;
    while k < len
        invariant
            len == a.1 - a.0 == b.1 - b.0,
            a.0 <= a.1 <= p.len(),
            b.0 <= b.1 <= q.len(),
            k <= len,
            forall|j: int| 0 <= j < k ==> #[trigger] range_text(p@, a)[j] == range_text(q@, b)[j],
        decreases len - k,
    {
        if p[a.0 + k] != q[b.0 + k] {
            proof {
                assert(range_text(p@, a)[k as int] != range_text(q@, b)[k as int]);
            }
            return false;
        }
        k += 1;
    }
    proof {
        assert(range_text(p@, a) =~= range_text(q@, b));
    }
    true
}

/// The range of `p` holds exactly the characters `want`.
pub(crate) fn range_is(p: &Vec<char>, r: (usize, usize), want: &[char]) -> (b: bool)
    requires
        r.0 <= r.1 <= p.len(),
    ensures
        b == (range_text(p@, r) == want@),
{
    let len = r.1 - r.0;
    if len != want.len() {
        proof {
            assert(range_text(p@, r).len() != want@.len());
        }
        return false;
    }
    let mut k: usize = 0;
    while k < len
        invariant
            len == r.1 - r.0 == want@.len(),
            r.0 <= r.1 <= p.len(),
            k <= len,
            forall|j: int| 0 <= j < k ==> #[trigger] range_text(p@, r)[j] == want@[j],
        decreases len - k,
    {
        if p[r.0 + k] != want[k] {
            proof {
                assert(range_text(p@, r)[k as int] != want@[k as int]);
            }
            return false;
        }
        k += 1;
    }
    proof {
        assert(range_text(p@, r) =~= want@);
    }
    true
}

/// The names left from the components `comps` of `p` once `..` has been
/// applied.
fn clean_ranges(p: &Vec<char>, comps: &Vec<(usize, usize)>) -> (names: Vec<(usize, usize)>)
    requires
        ranges_within(p@, comps@),
    ensures
        ranges_within(p@, names@),
        ranges_text(p@, names@) == clean_names(ranges_text(p@, comps@)),
{
    let ghost all = ranges_text(p@, comps@);
    let mut names: Vec<(usize, usize)> = Vec::new();
    let parent = ['.', '.'];
    let root = ['/'];
    let cur = ['.'];
    proof {
        assert(all.take(0) =~= Seq::<Seq<char>>::empty());
        assert(ranges_text(p@, names@) =~= Seq::<Seq<char>>::empty());
    }
    for k in 0..comps.len()
        invariant
            all == ranges_text(p@, comps@),
            ranges_within(p@, comps@),
            ranges_within(p@, names@),
            ranges_text(p@, names@) == clean_names(all.take(k as int)),
            parent@ == parent_marker(),
            root@ == root_marker(),
            cur@ == cur_marker(),
    {
        let r = comps[k];
        proof {
            assert(comps@[k as int].0 <= comps@[k as int].1 <= p@.len());
            assert(all.take(k + 1).drop_last() =~= all.take(k as int));
            assert(all.take(k + 1).last() == range_text(p@, r));
        }
        if range_is(p, r, &parent) {
            if names.len() > 0 {
                proof {
                    lemma_ranges_drop_last(p@, names@);
                }
                names.pop();
            }
        } else if range_is(p, r, &root) || range_is(p, r, &cur) {
        } else {
            proof {
                lemma_ranges_push(p@, names@, r);
            }
            names.push(r);
        }
    }
    proof {
        assert(all.take(comps@.len() as int) =~= all);
    }
    names
}

/// The path text of the optional root and the names held in `names`.
fn render_ranges(p: &Vec<char>, rooted: bool, names: &Vec<(usize, usize)>) -> (s: String)
    requires
        ranges_within(p@, names@),
    ensures
        s@ == render(rooted, ranges_text(p@, names@)),
{
    let ghost all = ranges_text(p@, names@);
    let ghost prefix: Seq<char> = if rooted {
        seq!['/']
    } else {
        seq![]
    };
    let mut s = String::new();
    if rooted {
        push_char(&mut s, '/');
    }
    proof {
        assert(s@ =~= prefix);
        assert(all.take(0) =~= Seq::<Seq<char>>::empty());
        assert(render(rooted, all.take(0)) =~= prefix);
    }
    for k in 0..names.len()
        invariant
            all == ranges_text(p@, names@),
            ranges_within(p@, names@),
            prefix == (if rooted {
                seq!['/']
            } else {
                seq![]
            }),
            s@ == render(rooted, all.take(k as int)),
    {
        let ghost before = s@;
        if k > 0 {
            push_char(&mut s, '/');
        }
        let ghost base = s@;
        let r = names[k];
        proof {
            assert(names@[k as int].0 <= names@[k as int].1 <= p@.len());
        }
        let mut j = r.0;
        while j < r.1
            invariant
                r.0 <= j <= r.1 <= p.len(),
                s@ == base + p@.subrange(r.0 as int, j as int),
            decreases r.1 - j,
        {
            push_char(&mut s, p[j]);
            proof {
                assert(p@.subrange(r.0 as int, j + 1) =~= p@.subrange(r.0 as int, j as int).push(
                    p@[j as int],
                ));
            }
            j += 1;
        }
        proof {
            let t = all.take(k + 1);
            assert(t.drop_last() =~= all.take(k as int));
            assert(t.last() == range_text(p@, r));
            if k == 0 {
                assert(t.len() == 1);
                assert(join_names(t) == t[0]);
                assert(s@ =~= prefix + join_names(t));
            } else {
                assert(s@ =~= prefix + (join_names(t.drop_last()) + seq!['/'] + t.last()));
            }
        }
    }
    proof {
        assert(all.take(names@.len() as int) =~= all);
    }
    s
}

/// `a` (ranges of `p`) is a component prefix of `b` (ranges of `q`).
fn ranges_prefix(
    p: &Vec<char>,
    a: &Vec<(usize, usize)>,
    q: &Vec<char>,
    b: &Vec<(usize, usize)>,
) -> (r: bool)
    requires
        ranges_within(p@, a@),
        ranges_within(q@, b@),
    ensures
        r == is_component_prefix(ranges_text(p@, a@), ranges_text(q@, b@)),
{
    let ghost ta = ranges_text(p@, a@);
    let ghost tb = ranges_text(q@, b@);
    if a.len() > b.len() {
        return false;
    }
    for i in 0..a.len()
        invariant
            a.len() <= b.len(),
            ta == ranges_text(p@, a@),
            tb == ranges_text(q@, b@),
            ranges_within(p@, a@),
            ranges_within(q@, b@),
            forall|j: int| 0 <= j < i ==> ta[j] == tb[j],
    {
        proof {
            assert(a@[i as int].0 <= a@[i as int].1 <= p@.len());
            assert(i < b@.len());
            assert(b@[i as int].0 <= b@[i as int].1 <= q@.len());
        }
        if !same_text(p, a[i], q, b[i]) {
            proof {
                assert(ta[i as int] == range_text(p@, a@[i as int]));
                assert(tb[i as int] == range_text(q@, b@[i as int]));
            }
            return false;
        }
        proof {
            assert(ta[i as int] == range_text(p@, a@[i as int]));
            assert(tb[i as int] == range_text(q@, b@[i as int]));
        }
    }
    true
}

/// The position of the first character of `q` that is not a leading slash.
fn first_non_slash(q: &Vec<char>) -> (k: usize)
    ensures
        k <= q.len(),
        q@.subrange(k as int, q@.len() as int) == trim_leading_slashes(q@),
{
    let mut k: usize = 0;
    proof {
        assert(q@.subrange(0, q@.len() as int) =~= q@);
    }
    while k < q.len() && q[k] == '/'
        invariant
            k <= q.len(),
            trim_leading_slashes(q@.subrange(k as int, q@.len() as int)) == trim_leading_slashes(
                q@,
            ),
        decreases q.len() - k,
    {
        proof {
            let s = q@.subrange(k as int, q@.len() as int);
            assert(s.drop_first() =~= q@.subrange(k + 1, q@.len() as int));
        }
        k += 1;
    }
    k
}

/// The text of `Path::new(root).join(rel)`, where `rel` is `q` after
/// position `from`.
fn join_chars(root: &Vec<char>, q: &Vec<char>, from: usize) -> (joined: Vec<char>)
    requires
        from <= q.len(),
    ensures
        joined@ == join_path(root@, q@.subrange(from as int, q@.len() as int)),
{
    let mut joined: Vec<char> = Vec::new();
    for i in 0..root.len()
        invariant
            joined@ == root@.take(i as int),
    {
        joined.push(root[i]);
        proof {
            assert(root@.take(i + 1) =~= root@.take(i as int).push(root@[i as int]));
        }
    }
    proof {
        assert(root@.take(root@.len() as int) =~= root@);
    }
    let ghost base = if root.len() > 0 && root@.last() != '/' {
        root@ + seq!['/']
    } else {
        root@
    };
    if root.len() > 0 && root[root.len() - 1] != '/' {
        joined.push('/');
    }
    proof {
        assert(joined@ =~= base);
    }
    let mut j = from;
    while j < q.len()
        invariant
            from <= j <= q.len(),
            joined@ == base + q@.subrange(from as int, j as int),
        decreases q.len() - j,
    {
        joined.push(q[j]);
        proof {
            assert(q@.subrange(from as int, j + 1) =~= q@.subrange(from as int, j as int).push(
                q@[j as int],
            ));
        }
        j += 1;
    }
    proof {
        assert(joined@ =~= join_path(root@, q@.subrange(from as int, q@.len() as int)));
    }
    joined
}

/// The cleaned form of the path `p`: its components read in order, with `..`
/// dropping the name before it and `.` vanishing, under a leading `/` when
/// `p` is absolute.  No file system is consulted.
pub fn clean_lexically(path: &str) -> (r: String)
    ensures
        r@ == cleaned(path@),
{
    let p = chars_of(path);
    let comps = component_ranges(&p);
    let names = clean_ranges(&p, &comps);
    let rooted = p.len() > 0 && p[0] == '/';
    render_ranges(&p, rooted, &names)
}

/// Resolves `requested` below the user's root directory `root`: the request
/// loses its leading slashes, is joined to the root and cleaned lexically.
/// The result is returned when it still lies under `root`, component by
/// component; otherwise the request is refused with a fixed message.
pub fn validate_and_resolve_path(root: &str, requested: &str) -> (r: Result<String, String>)
    ensures
        match r {
            Ok(p) => resolved(root@, requested@) == Some(p@),
            Err(e) => resolved(root@, requested@) is None && e@ == traversal_message(),
        },
{
    let rv = chars_of(root);
    let qv = chars_of(requested);
    let from = first_non_slash(&qv);
    let joined = join_chars(&rv, &qv, from);
    let comps = component_ranges(&joined);
    let names = clean_ranges(&joined, &comps);
    let rooted = joined.len() > 0 && joined[0] == '/';
    let root_comps = component_ranges(&rv);
    let mut target: Vec<(usize, usize)> = Vec::new();
    if rooted {
        target.push((0, 1));
    }
    let ghost head = ranges_text(joined@, target@);
    proof {
        if rooted {
            assert(joined@.subrange(0, 1) =~= seq!['/']);
            assert(head =~= seq![root_marker()]);
        } else {
            assert(head =~= Seq::<Seq<char>>::empty());
        }
    }
    for i in 0..names.len()
        invariant
            ranges_within(joined@, names@),
            ranges_within(joined@, target@),
            rooted ==> joined@.len() >= 1,
            head == ranges_text(joined@, target@.take(if rooted { 1int } else { 0int })),
            target@.len() == (if rooted { 1int } else { 0int }) + i,
            ranges_text(joined@, target@) == head + ranges_text(joined@, names@).take(i as int),
    {
        proof {
            lemma_ranges_push(joined@, target@, names@[i as int]);
            assert(names@[i as int].0 <= names@[i as int].1 <= joined@.len());
            assert(ranges_text(joined@, names@).take(i + 1) =~= ranges_text(joined@, names@).take(
                i as int,
            ).push(range_text(joined@, names@[i as int])));
            assert(target@.push(names@[i as int]).take(if rooted { 1int } else { 0int })
                =~= target@.take(if rooted { 1int } else { 0int }));
        }
        target.push(names[i]);
    }
    let ghost names_text = ranges_text(joined@, names@);
    proof {
        assert(names_text.take(names_text.len() as int) =~= names_text);
        assert(names_text == clean_names(path_components(joined@)));
        lemma_cleaned_names(joined@);
        lemma_components_of_render(rooted, names_text);
        assert(head == (if rooted {
            seq![root_marker()]
        } else {
            seq![]
        }));
        assert(ranges_text(joined@, target@) == path_components(cleaned(joined@)));
        assert(joined@ == join_path(root@, trim_leading_slashes(requested@)));
    }
    if ranges_prefix(&rv, &root_comps, &joined, &target) {
        Ok(render_ranges(&joined, rooted, &names))
    } else {
        Err(String::from_str("Acesso negado: Tentativa de Directory Traversal detectada"))
    }
}

} // verus!
