//! The order of a directory listing: directories first, then by lower-case
//! name.
use vstd::prelude::*;

use crate::listing::FileItem;
use crate::text::chars_of;

verus! {

/// Names what `str::to_lowercase` returns for a text.
pub uninterp spec fn lowercase_of(s: Seq<char>) -> Seq<char>;

/// Calls `str::to_lowercase`; its result is named `lowercase_of` of the
/// argument's text.  Nothing more of the Unicode case mapping is stated.
#[verifier::external_body]
fn to_lowercase(s: &str) -> (r: String)
    ensures
        r@ == lowercase_of(s@),
{
    s.to_lowercase()
}

/// `a` comes no later than `b` in the order of `String`: character by
/// character, a prefix first.
pub open spec fn text_le(a: Seq<char>, b: Seq<char>) -> bool
    decreases a.len(),
{
    if a.len() == 0 {
        true
    } else if b.len() == 0 {
        false
    } else if a[0] != b[0] {
        a[0] < b[0]
    } else {
        text_le(a.drop_first(), b.drop_first())
    }
}

/// `a` is a prefix of `b`.
pub open spec fn is_text_prefix(a: Seq<char>, b: Seq<char>) -> bool {
    a.len() <= b.len() && b.take(a.len() as int) == a
}

/// At position `i` the texts first differ, and `a` holds the smaller
/// character there.
pub open spec fn first_difference_below(a: Seq<char>, b: Seq<char>, i: int) -> bool {
    0 <= i < a.len() && i < b.len() && a.take(i) == b.take(i) && a[i] < b[i]
}

/// `text_le` is the order of `String`: `a` comes no later than `b` exactly
/// when `a` is a prefix of `b`, or at the first position where they differ
/// `a` holds the smaller character.
pub proof fn law_text_le_is_string_order(a: Seq<char>, b: Seq<char>)
    ensures
        text_le(a, b) <==> (is_text_prefix(a, b) || exists|i: int|
            first_difference_below(a, b, i)),
    decreases a.len(),
{
    if a.len() == 0 {
        assert(b.take(0) =~= a);
    } else if b.len() == 0 {
        assert(!is_text_prefix(a, b));
    } else if a[0] != b[0] {
        if is_text_prefix(a, b) {
            assert(b.take(a.len() as int)[0] == b[0]);
        }
        if a[0] < b[0] {
            assert(a.take(0) =~= b.take(0));
            assert(first_difference_below(a, b, 0));
        } else {
            assert forall|i: int| !first_difference_below(a, b, i) by {
                if first_difference_below(a, b, i) && i > 0 {
                    assert(a.take(i)[0] == b.take(i)[0]);
                }
            }
        }
    } else {
        let a1 = a.drop_first();
        let b1 = b.drop_first();
        law_text_le_is_string_order(a1, b1);
        if a.len() <= b.len() {
            if b.take(a.len() as int) == a {
                assert(b1.take(a1.len() as int) =~= a1) by {
                    assert forall|k: int| 0 <= k < a1.len() implies #[trigger] b1.take(a1.len() as int)[k]
                        == a1[k] by {
                        assert(b.take(a.len() as int)[k + 1] == a[k + 1]);
                    }
                }
            }
            if b1.take(a1.len() as int) == a1 {
                assert(b.take(a.len() as int) =~= a) by {
                    assert forall|k: int| 0 <= k < a.len() implies #[trigger] b.take(a.len() as int)[k]
                        == a[k] by {
                        if k > 0 {
                            assert(b1.take(a1.len() as int)[k - 1] == a1[k - 1]);
                        }
                    }
                }
            }
        }
        if exists|i: int| first_difference_below(a1, b1, i) {
            let i = choose|i: int| first_difference_below(a1, b1, i);
            assert(a.take(i + 1) =~= b.take(i + 1)) by {
                assert forall|k: int| 0 <= k < i + 1 implies #[trigger] a.take(i + 1)[k] == b.take(i + 1)[k] by {
                    if k > 0 {
                        assert(a1.take(i)[k - 1] == b1.take(i)[k - 1]);
                    }
                }
            }
            assert(first_difference_below(a, b, i + 1));
        }
        if exists|i: int| first_difference_below(a, b, i) {
            let i = choose|i: int| first_difference_below(a, b, i);
            assert(i != 0);
            assert(a1.take(i - 1) =~= b1.take(i - 1)) by {
                assert forall|k: int| 0 <= k < i - 1 implies #[trigger] a1.take(i - 1)[k] == b1.take(i - 1)[k] by {
                    assert(a.take(i)[k + 1] == b.take(i)[k + 1]);
                }
            }
            assert(first_difference_below(a1, b1, i - 1));
        }
    }
}

/// A text comes before every longer text it begins, and after none of them.
pub proof fn law_text_le_prefix_first(a: Seq<char>, b: Seq<char>)
    ensures
        text_le(a, a + b),
        text_le(a + b, a) ==> b.len() == 0,
{
    law_text_le_is_string_order(a, a + b);
    law_text_le_is_string_order(a + b, a);
    assert((a + b).take(a.len() as int) =~= a);
    if text_le(a + b, a) && b.len() > 0 {
        assert(!is_text_prefix(a + b, a));
        let i = choose|i: int| first_difference_below(a + b, a, i);
        assert((a + b)[i] == a[i]);
    }
}

/// An entry (a directory or not, with sort key `a_key`) may come before
/// another: a directory before a file, and within each kind by key.
pub open spec fn precedes(a_dir: bool, a_key: Seq<char>, b_dir: bool, b_key: Seq<char>) -> bool {
    ||| (a_dir && !b_dir)
    ||| (a_dir == b_dir && text_le(a_key, b_key))
}

/// `a` may be listed before `b`: a directory before a file, and within
/// each kind by lower-case name.
pub open spec fn listed_before(a: FileItem, b: FileItem) -> bool {
    precedes(a.is_dir, lowercase_of(a.name@), b.is_dir, lowercase_of(b.name@))
}

/// The items are in listing order.
pub open spec fn is_listing_order(items: Seq<FileItem>) -> bool {
    forall|i: int, j: int| 0 <= i < j < items.len() ==> listed_before(items[i], items[j])
}

pub proof fn lemma_text_le_total(a: Seq<char>, b: Seq<char>)
    ensures
        text_le(a, b) || text_le(b, a),
    decreases a.len(),
{
    if a.len() > 0 && b.len() > 0 && a[0] == b[0] {
        lemma_text_le_total(a.drop_first(), b.drop_first());
    }
}

pub proof fn lemma_text_le_transitive(a: Seq<char>, b: Seq<char>, c: Seq<char>)
    requires
        text_le(a, b),
        text_le(b, c),
    ensures
        text_le(a, c),
    decreases a.len(),
{
    if a.len() > 0 && b.len() > 0 && c.len() > 0 && a[0] == b[0] && b[0] == c[0] {
        lemma_text_le_transitive(a.drop_first(), b.drop_first(), c.drop_first());
    }
}

proof fn lemma_precedes_total(ad: bool, ak: Seq<char>, bd: bool, bk: Seq<char>)
    ensures
        precedes(ad, ak, bd, bk) || precedes(bd, bk, ad, ak),
{
    lemma_text_le_total(ak, bk);
}

proof fn lemma_precedes_transitive(
    ad: bool,
    ak: Seq<char>,
    bd: bool,
    bk: Seq<char>,
    cd: bool,
    ck: Seq<char>,
)
    requires
        precedes(ad, ak, bd, bk),
        precedes(bd, bk, cd, ck),
    ensures
        precedes(ad, ak, cd, ck),
{
    if ad == bd && bd == cd {
        lemma_text_le_transitive(ak, bk, ck);
    }
}

/// `sorted` is `items` rearranged by `order` (position `k` of `sorted` holds
/// item `order[k]`), and items that may be listed either way round keep
/// their order.
pub open spec fn is_stable_arrangement(
    items: Seq<FileItem>,
    sorted: Seq<FileItem>,
    order: Seq<int>,
) -> bool {
    &&& order.len() == items.len() == sorted.len()
    &&& forall|k: int|
        0 <= k < order.len() ==> 0 <= #[trigger] order[k] < items.len() && sorted[k]
            == items[order[k]]
    &&& forall|k1: int, k2: int|
        0 <= k1 < order.len() && 0 <= k2 < order.len() && k1 != k2 ==> order[k1] != order[k2]
    &&& forall|k1: int, k2: int|
        0 <= k1 < k2 < order.len() && listed_before(sorted[k2], sorted[k1]) ==> order[k1]
            < order[k2]
}

/// The texts of the sort keys.
pub open spec fn key_texts(keys: Seq<String>) -> Seq<Seq<char>> {
    keys.map_values(|k: String| k@)
}

/// `sorted` is `items` rearranged by `order`, item `i` being sorted by
/// `keys[i]`: the entries are in order (directories first, then by key),
/// and entries that may come either way round keep their order.
pub open spec fn is_keyed_arrangement(
    items: Seq<FileItem>,
    keys: Seq<Seq<char>>,
    sorted: Seq<FileItem>,
    order: Seq<int>,
) -> bool {
    &&& order.len() == items.len() == sorted.len() == keys.len()
    &&& forall|k: int|
        0 <= k < order.len() ==> 0 <= #[trigger] order[k] < items.len() && sorted[k]
            == items[order[k]]
    &&& forall|k1: int, k2: int|
        0 <= k1 < order.len() && 0 <= k2 < order.len() && k1 != k2 ==> order[k1] != order[k2]
    &&& forall|k1: int, k2: int|
        0 <= k1 < k2 < order.len() ==> precedes(
            sorted[k1].is_dir,
            keys[order[k1]],
            sorted[k2].is_dir,
            keys[order[k2]],
        )
    &&& forall|k1: int, k2: int|
        0 <= k1 < k2 < order.len() && precedes(
            sorted[k2].is_dir,
            keys[order[k2]],
            sorted[k1].is_dir,
            keys[order[k1]],
        ) ==> order[k1] < order[k2]
}

/// Whether `a` comes no later than `b` in the order of `String`.
fn chars_le(a: &Vec<char>, b: &Vec<char>) -> (r: bool)
    ensures
        r == text_le(a@, b@),
{
    let mut i: usize = 0;
    proof {
        assert(a@.skip(0) =~= a@);
        assert(b@.skip(0) =~= b@);
    }
    while i < a.len() && i < b.len() && a[i] == b[i]
        invariant
            i <= a.len(),
            i <= b.len(),
            text_le(a@, b@) == text_le(a@.skip(i as int), b@.skip(i as int)),
        decreases a.len() - i,
    {
        proof {
            assert(a@.skip(i as int).drop_first() =~= a@.skip(i + 1));
            assert(b@.skip(i as int).drop_first() =~= b@.skip(i + 1));
            assert(a@.skip(i as int)[0] == a@[i as int]);
            assert(b@.skip(i as int)[0] == b@[i as int]);
        }
        i += 1;
    }
    if i == a.len() {
        proof {
            assert(a@.skip(i as int).len() == 0);
        }
        true
    } else if i == b.len() {
        proof {
            assert(a@.skip(i as int).len() > 0);
            assert(b@.skip(i as int).len() == 0);
        }
        false
    } else {
        proof {
            assert(a@.skip(i as int)[0] == a@[i as int]);
            assert(b@.skip(i as int)[0] == b@[i as int]);
            assert(a@[i as int] != b@[i as int]);
            assert(a@.skip(i as int).len() > 0 && b@.skip(i as int).len() > 0);
        }
        a[i] < b[i]
    }
}

/// The items sorted by the given keys (`keys[i]` belongs to `items[i]`):
/// directories first, then by key, entries that may come either way round
/// keeping their order.  The result holds the same items.
pub fn sort_by_keys(items: Vec<FileItem>, keys: Vec<String>) -> (sorted: Vec<FileItem>)
    requires
        keys@.len() == items@.len(),
    ensures
        sorted@.to_multiset() == items@.to_multiset(),
        exists|order: Seq<int>| is_keyed_arrangement(items@, key_texts(keys@), sorted@, order),
{
    broadcast use vstd::seq_lib::group_to_multiset_ensures;

    let ghost all = items@;
    let ghost kt = key_texts(keys@);
    let mut rest = items;
    let mut rest_keys = keys;
    let mut sorted: Vec<FileItem> = Vec::new();
    let mut skeys: Vec<Vec<char>> = Vec::new();
    let ghost mut order: Seq<int> = Seq::empty();
    while rest.len() > 0
        invariant
            all == items@,
            kt.len() == all.len(),
            rest@ == all.take(rest@.len() as int),
            rest_keys@.len() == rest@.len(),
            forall|i: int| 0 <= i < rest_keys@.len() ==> #[trigger] rest_keys@[i]@ == kt[i],
            rest@.len() <= all.len(),
            order.len() == sorted@.len() == skeys@.len() == all.len() - rest@.len(),
            forall|k: int|
                0 <= k < order.len() ==> rest@.len() <= #[trigger] order[k] < all.len()
                    && sorted@[k] == all[order[k]] && skeys@[k]@ == kt[order[k]],
            forall|k1: int, k2: int|
                0 <= k1 < order.len() && 0 <= k2 < order.len() && k1 != k2 ==> order[k1]
                    != order[k2],
            forall|k1: int, k2: int|
                0 <= k1 < k2 < order.len() ==> precedes(
                    sorted@[k1].is_dir,
                    kt[order[k1]],
                    sorted@[k2].is_dir,
                    kt[order[k2]],
                ),
            forall|k1: int, k2: int|
                0 <= k1 < k2 < order.len() && precedes(
                    sorted@[k2].is_dir,
                    kt[order[k2]],
                    sorted@[k1].is_dir,
                    kt[order[k1]],
                ) ==> order[k1] < order[k2],
            sorted@.to_multiset().add(rest@.to_multiset()) == all.to_multiset(),
        decreases rest@.len(),
    {
        let ghost before_rest = rest@;
        let ghost before_keys = rest_keys@;
        let x = rest.pop().unwrap();
        let xkey_text = rest_keys.pop().unwrap();
        let ghost m = rest@.len() as int;
        proof {
            assert(before_rest == rest@.push(x));
            assert(x == all[m]);
            assert(rest@ =~= all.take(m));
            assert(xkey_text@ == kt[m]) by {
                assert(before_keys[m]@ == kt[m]);
            }
            assert forall|i: int| 0 <= i < rest_keys@.len() implies #[trigger] rest_keys@[i]@
                == kt[i] by {
                assert(rest_keys@[i] == before_keys[i]);
            }
        }
        let key = chars_of(xkey_text.as_str());
        let mut pos: usize = 0;
        while pos < sorted.len() && !((x.is_dir && !sorted[pos].is_dir) || (x.is_dir
            == sorted[pos].is_dir && chars_le(&key, &skeys[pos])))
            invariant
                pos <= sorted@.len(),
                skeys@.len() == sorted@.len() == order.len(),
                forall|k: int| 0 <= k < order.len() ==> #[trigger] skeys@[k]@ == kt[order[k]],
                key@ == kt[m],
                forall|k: int|
                    0 <= k < pos ==> !precedes(x.is_dir, kt[m], #[trigger] sorted@[k].is_dir, kt[order[k]]),
            decreases sorted@.len() - pos,
        {
            proof {
                assert(skeys@[pos as int]@ == kt[order[pos as int]]);
            }
            pos += 1;
        }
        proof {
            if pos < sorted@.len() {
                assert(skeys@[pos as int]@ == kt[order[pos as int]]);
                assert(precedes(x.is_dir, kt[m], sorted@[pos as int].is_dir, kt[order[pos as int]]));
            }
        }
        let ghost old_sorted = sorted@;
        let ghost old_order = order;
        let ghost old_skeys = skeys@;
        sorted.insert(pos, x);
        skeys.insert(pos, key);
        proof {
            order = old_order.insert(pos as int, m);
            assert(sorted@ == old_sorted.insert(pos as int, x));
            assert forall|k: int| 0 <= k < order.len() implies rest@.len() <= #[trigger] order[k]
                < all.len() && sorted@[k] == all[order[k]] && skeys@[k]@ == kt[order[k]] by {
                if k < pos {
                    assert(order[k] == old_order[k] && sorted@[k] == old_sorted[k] && skeys@[k]
                        == old_skeys[k]);
                } else if k > pos {
                    assert(order[k] == old_order[k - 1] && sorted@[k] == old_sorted[k - 1]
                        && skeys@[k] == old_skeys[k - 1]);
                }
            }
            assert forall|k1: int, k2: int|
                0 <= k1 < order.len() && 0 <= k2 < order.len() && k1 != k2 implies order[k1]
                != order[k2] by {
                let a = if k1 < pos {
                    k1
                } else {
                    k1 - 1
                };
                let b = if k2 < pos {
                    k2
                } else {
                    k2 - 1
                };
                if k1 != pos {
                    assert(order[k1] == old_order[a]);
                }
                if k2 != pos {
                    assert(order[k2] == old_order[b]);
                }
            }
            assert forall|k1: int, k2: int| 0 <= k1 < k2 < order.len() implies precedes(
                sorted@[k1].is_dir,
                kt[order[k1]],
                sorted@[k2].is_dir,
                kt[order[k2]],
            ) by {
                if k2 < pos {
                    assert(order[k1] == old_order[k1] && order[k2] == old_order[k2]);
                    assert(sorted@[k1] == old_sorted[k1] && sorted@[k2] == old_sorted[k2]);
                } else if k2 == pos {
                    assert(order[k1] == old_order[k1] && sorted@[k1] == old_sorted[k1]);
                    lemma_precedes_total(x.is_dir, kt[m], old_sorted[k1].is_dir, kt[old_order[k1]]);
                } else if k1 < pos {
                    assert(order[k1] == old_order[k1] && order[k2] == old_order[k2 - 1]);
                    assert(sorted@[k1] == old_sorted[k1] && sorted@[k2] == old_sorted[k2 - 1]);
                } else if k1 == pos {
                    assert(order[k2] == old_order[k2 - 1] && sorted@[k2] == old_sorted[k2 - 1]);
                    if k2 - 1 > pos {
                        lemma_precedes_transitive(
                            x.is_dir,
                            kt[m],
                            old_sorted[pos as int].is_dir,
                            kt[old_order[pos as int]],
                            old_sorted[k2 - 1].is_dir,
                            kt[old_order[k2 - 1]],
                        );
                    }
                } else {
                    assert(order[k1] == old_order[k1 - 1] && order[k2] == old_order[k2 - 1]);
                    assert(sorted@[k1] == old_sorted[k1 - 1] && sorted@[k2] == old_sorted[k2 - 1]);
                }
            }
            assert forall|k1: int, k2: int|
                0 <= k1 < k2 < order.len() && precedes(
                    sorted@[k2].is_dir,
                    kt[order[k2]],
                    sorted@[k1].is_dir,
                    kt[order[k1]],
                ) implies order[k1] < order[k2] by {
                if k2 < pos {
                    assert(order[k1] == old_order[k1] && order[k2] == old_order[k2]);
                    assert(sorted@[k1] == old_sorted[k1] && sorted@[k2] == old_sorted[k2]);
                } else if k2 == pos {
                    assert(order[k1] == old_order[k1] && sorted@[k1] == old_sorted[k1]);
                } else if k1 < pos {
                    assert(order[k1] == old_order[k1] && order[k2] == old_order[k2 - 1]);
                    assert(sorted@[k1] == old_sorted[k1] && sorted@[k2] == old_sorted[k2 - 1]);
                } else if k1 == pos {
                    assert(order[k2] == old_order[k2 - 1]);
                } else {
                    assert(order[k1] == old_order[k1 - 1] && order[k2] == old_order[k2 - 1]);
                    assert(sorted@[k1] == old_sorted[k1 - 1] && sorted@[k2] == old_sorted[k2 - 1]);
                }
            }
            vstd::seq_lib::to_multiset_insert(old_sorted, pos as int, x);
            vstd::seq_lib::to_multiset_build(rest@, x);
            assert(sorted@.to_multiset().add(rest@.to_multiset()) =~= old_sorted.to_multiset().add(
                before_rest.to_multiset(),
            ));
        }
    }
    proof {
        assert(rest@.to_multiset() =~= vstd::multiset::Multiset::empty());
        assert(sorted@.to_multiset().add(rest@.to_multiset()) =~= sorted@.to_multiset());
        assert(is_keyed_arrangement(all, kt, sorted@, order));
    }
    sorted
}

/// The items in listing order: directories first, and within each kind by
/// lower-case name (`str::to_lowercase`), items that may come either way
/// round keeping their order.  The result holds the same items.
pub fn sort_file_items(items: Vec<FileItem>) -> (sorted: Vec<FileItem>)
    ensures
        is_listing_order(sorted@),
        sorted@.to_multiset() == items@.to_multiset(),
        exists|order: Seq<int>| is_stable_arrangement(items@, sorted@, order),
{
    let mut keys: Vec<String> = Vec::new();
    let mut i: usize = 0;
    while i < items.len()
        invariant
            i <= items@.len(),
            keys@.len() == i,
            forall|k: int| 0 <= k < i ==> #[trigger] keys@[k]@ == lowercase_of(items@[k].name@),
        decreases items@.len() - i,
    {
        let key = to_lowercase(items[i].name.as_str());
        keys.push(key);
        i += 1;
    }
    let ghost all = items@;
    let ghost kt = key_texts(keys@);
    proof {
        assert forall|k: int| 0 <= k < all.len() implies #[trigger] kt[k] == lowercase_of(
            all[k].name@,
        ) by {
            assert(keys@[k]@ == lowercase_of(all[k].name@));
        }
    }
    let sorted = sort_by_keys(items, keys);
    proof {
        let order = choose|order: Seq<int>| is_keyed_arrangement(all, kt, sorted@, order);
        assert forall|k: int| 0 <= k < order.len() implies kt[#[trigger] order[k]] == lowercase_of(
            sorted@[k].name@,
        ) by {
            assert(sorted@[k] == all[order[k]]);
        }
        assert forall|i: int, j: int| 0 <= i < j < sorted@.len() implies listed_before(
            sorted@[i],
            sorted@[j],
        ) by {
            assert(kt[order[i]] == lowercase_of(sorted@[i].name@));
            assert(kt[order[j]] == lowercase_of(sorted@[j].name@));
        }
        assert forall|k1: int, k2: int|
            0 <= k1 < k2 < order.len() && listed_before(sorted@[k2], sorted@[k1]) implies order[k1]
            < order[k2] by {
            assert(kt[order[k1]] == lowercase_of(sorted@[k1].name@));
            assert(kt[order[k2]] == lowercase_of(sorted@[k2].name@));
        }
        assert(is_stable_arrangement(all, sorted@, order));
    }
    sorted
}

/// In a listing, every directory comes before every file.
pub proof fn law_directories_first(items: Seq<FileItem>, i: int, j: int)
    requires
        is_listing_order(items),
        0 <= i < j < items.len(),
        items[j].is_dir,
    ensures
        items[i].is_dir,
{
    assert(listed_before(items[i], items[j]));
}

} // verus!
