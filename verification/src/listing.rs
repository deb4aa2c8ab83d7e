//! The entries of a directory and their order.

use vstd::prelude::*;
use vstd::utf8::encode_utf8;
use crate::text::lemma_same_encoding;

verus! {

/// An entry of a directory and what it is.
#[derive(Debug)]
pub struct DirectoryEntry {
    pub name: String,
    pub kind: &'static str,
}

/// What an entry is called that has one of these types, or none.
pub open spec fn kind_of(is_dir: bool, is_file: bool, is_symlink: bool) -> Seq<char> {
    if is_dir {
        "directory"@
    } else if is_file {
        "file"@
    } else if is_symlink {
        "symlink"@
    } else {
        "other"@
    }
}

/// What an entry is called that has one of these types, or none.
pub fn entry_kind(is_dir: bool, is_file: bool, is_symlink: bool) -> (kind: &'static str)
    ensures
        kind@ == kind_of(is_dir, is_file, is_symlink),
{
    if is_dir {
        "directory"
    } else if is_file {
        "file"
    } else if is_symlink {
        "symlink"
    } else {
        "other"
    }
}

/// Whether `a` does not come behind `b` in the order in which the first byte that differs decides,
/// and a text comes before its continuations.
pub open spec fn not_behind(a: Seq<u8>, b: Seq<u8>) -> bool
    decreases a.len(),
{
    if a.len() == 0 {
        true
    } else if b.len() == 0 {
        false
    } else if a[0] != b[0] {
        a[0] < b[0]
    } else {
        not_behind(a.drop_first(), b.drop_first())
    }
}

/// The bytes by which an entry is ordered.
pub open spec fn key(entry: DirectoryEntry) -> Seq<u8> {
    encode_utf8(entry.name@)
}

/// Whether entries stand in the order of their names.
pub open spec fn in_order(entries: Seq<DirectoryEntry>) -> bool {
    forall|i: int, j: int|
        0 <= i <= j < entries.len() ==> not_behind(#[trigger] key(entries[i]), #[trigger] key(entries[j]))
}

/// The entries whose name has the bytes `k`, in their order.
pub open spec fn entries_of(entries: Seq<DirectoryEntry>, k: Seq<u8>) -> Seq<DirectoryEntry> {
    entries.filter(|e: DirectoryEntry| key(e) == k)
}

/// Whether two listings have the same entries, with those of one name in the same order.
pub open spec fn same_entries(a: Seq<DirectoryEntry>, b: Seq<DirectoryEntry>) -> bool {
    forall|k: Seq<u8>| #[trigger] entries_of(a, k) == entries_of(b, k)
}

/// The order has no gaps: of two names, one does not come behind the other.
proof fn lemma_order_total(a: Seq<u8>, b: Seq<u8>)
    ensures
        not_behind(a, b) || not_behind(b, a),
    decreases a.len(),
{
    if a.len() > 0 && b.len() > 0 {
        lemma_order_total(a.drop_first(), b.drop_first());
    }
}

proof fn lemma_order_transitive(a: Seq<u8>, b: Seq<u8>, c: Seq<u8>)
    requires
        not_behind(a, b),
        not_behind(b, c),
    ensures
        not_behind(a, c),
    decreases a.len(),
{
    if a.len() > 0 && b.len() > 0 && c.len() > 0 && a[0] == b[0] && b[0] == c[0] {
        lemma_order_transitive(a.drop_first(), b.drop_first(), c.drop_first());
    }
}

/// Names of which none comes behind the other are the same.
pub proof fn lemma_order_antisymmetric(a: Seq<u8>, b: Seq<u8>)
    requires
        not_behind(a, b),
        not_behind(b, a),
    ensures
        a == b,
    decreases a.len(),
{
    if a.len() > 0 && b.len() > 0 {
        lemma_order_antisymmetric(a.drop_first(), b.drop_first());
        assert(a =~= seq![a[0]] + a.drop_first());
        assert(b =~= seq![b[0]] + b.drop_first());
    } else {
        assert(a =~= b);
    }
}

proof fn lemma_order_reflexive(a: Seq<u8>)
    ensures
        not_behind(a, a),
    decreases a.len(),
{
    if a.len() > 0 {
        lemma_order_reflexive(a.drop_first());
    }
}

/// Whether `a` does not come behind `b`.
fn name_not_behind(a: &str, b: &str) -> (r: bool)
    ensures
        r == not_behind(encode_utf8(a@), encode_utf8(b@)),
{
    let x: &[u8] = a.as_bytes();
    let y: &[u8] = b.as_bytes();
    let mut i: usize = 0;
    assert(x@.skip(0) =~= x@);
    assert(y@.skip(0) =~= y@);
    while i < x.len() && i < y.len()
        invariant
            x@ == encode_utf8(a@),
            y@ == encode_utf8(b@),
            i <= x@.len(),
            i <= y@.len(),
            not_behind(x@.skip(i as int), y@.skip(i as int)) == not_behind(x@, y@),
        decreases x@.len() - i,
    {
        if x[i] != y[i] {
            return x[i] < y[i];
        }
        assert(x@.skip(i as int).drop_first() =~= x@.skip(i + 1));
        assert(y@.skip(i as int).drop_first() =~= y@.skip(i + 1));
        i += 1;
    }
    i == x.len()
}

proof fn lemma_entries_of_add(a: Seq<DirectoryEntry>, b: Seq<DirectoryEntry>, k: Seq<u8>)
    ensures
        entries_of(a + b, k) == entries_of(a, k) + entries_of(b, k),
{
    Seq::filter_distributes_over_add(a, b, |e: DirectoryEntry| key(e) == k);
}

proof fn lemma_entries_of_one(e: DirectoryEntry, k: Seq<u8>)
    ensures
        entries_of(seq![e], k) == (if key(e) == k {
            seq![e]
        } else {
            seq![]
        }),
{
    reveal_with_fuel(Seq::filter, 2);
    assert(seq![e].drop_last() =~= seq![]);
    assert(entries_of(seq![e], k) =~= (if key(e) == k {
        seq![e]
    } else {
        seq![]
    }));
}

proof fn lemma_entries_of_none(entries: Seq<DirectoryEntry>, k: Seq<u8>)
    requires
        forall|i: int| 0 <= i < entries.len() ==> key(#[trigger] entries[i]) != k,
    ensures
        entries_of(entries, k) == Seq::<DirectoryEntry>::empty(),
    decreases entries.len(),
{
    reveal(Seq::filter);
    if entries.len() > 0 {
        let rest = entries.drop_last();
        assert forall|i: int| 0 <= i < rest.len() implies key(#[trigger] rest[i]) != k by {
            assert(rest[i] == entries[i]);
        }
        lemma_entries_of_none(rest, k);
        assert(key(entries[entries.len() - 1]) != k);
    } else {
        assert(entries_of(entries, k) =~= seq![]);
    }
}

/// Taking the last entry off `front` and putting it before `behind` keeps their entries.
proof fn lemma_move_last(front: Seq<DirectoryEntry>, behind: Seq<DirectoryEntry>, k: Seq<u8>)
    requires
        front.len() > 0,
    ensures
        entries_of(front, k) + entries_of(behind, k) == entries_of(front.drop_last(), k)
            + entries_of(seq![front.last()] + behind, k),
        entries_of(front, k) == entries_of(front.drop_last(), k) + entries_of(
            seq![front.last()],
            k,
        ),
        entries_of(seq![front.last()] + behind, k) == entries_of(seq![front.last()], k)
            + entries_of(behind, k),
{
    assert(front =~= front.drop_last() + seq![front.last()]);
    lemma_entries_of_add(front.drop_last(), seq![front.last()], k);
    lemma_entries_of_add(seq![front.last()], behind, k);
    assert(entries_of(front, k) + entries_of(behind, k) =~= entries_of(front.drop_last(), k)
        + entries_of(seq![front.last()] + behind, k));
}

fn reversed(entries: Vec<DirectoryEntry>) -> (r: Vec<DirectoryEntry>)
    ensures
        r@ == entries@.reverse(),
{
    let mut from = entries;
    let mut to: Vec<DirectoryEntry> = Vec::new();
    while from.len() > 0
        invariant
            from@.len() + to@.len() == entries@.len(),
            from@ =~= entries@.take(from@.len() as int),
            to@ =~= entries@.skip(from@.len() as int).reverse(),
        decreases from@.len(),
    {
        if let Some(entry) = from.pop() {
            to.push(entry);
        }
    }
    assert(entries@.skip(0) =~= entries@);
    to
}

/// Merges two listings that are in order; of entries with one name, those of `left` come first.
fn merged(left: Vec<DirectoryEntry>, right: Vec<DirectoryEntry>) -> (r: Vec<DirectoryEntry>)
    requires
        in_order(left@),
        in_order(right@),
    ensures
        in_order(r@),
        same_entries(r@, left@ + right@),
        r@.len() == left@.len() + right@.len(),
{
    let mut l = left;
    let mut r = right;
    let mut out: Vec<DirectoryEntry> = Vec::new();
    let ghost mut tail: Seq<DirectoryEntry> = seq![];
    proof {
        assert forall|k: Seq<u8>| #[trigger] entries_of(left@, k) + entries_of(right@, k)
            == entries_of(l@, k) + entries_of(r@, k) + entries_of(tail, k) by {
            lemma_entries_of_none(tail, k);
            assert(entries_of(left@, k) + entries_of(right@, k) =~= entries_of(l@, k) + entries_of(
                r@,
                k,
            ) + entries_of(tail, k));
        }
    }
    while l.len() > 0 || r.len() > 0
        invariant
            in_order(l@),
            in_order(r@),
            in_order(tail),
            forall|i: int, j: int|
                0 <= i < l@.len() && 0 <= j < tail.len() ==> not_behind(
                    #[trigger] key(l@[i]),
                    #[trigger] key(tail[j]),
                ),
            forall|i: int, j: int|
                0 <= i < r@.len() && 0 <= j < tail.len() ==> not_behind(
                    #[trigger] key(r@[i]),
                    #[trigger] key(tail[j]),
                ),
            forall|k: Seq<u8>| #[trigger]
                entries_of(left@, k) + entries_of(right@, k) == entries_of(l@, k) + entries_of(
                    r@,
                    k,
                ) + entries_of(tail, k),
            out@ =~= tail.reverse(),
            l@.len() + r@.len() + tail.len() == left@.len() + right@.len(),
        decreases l@.len() + r@.len(),
    {
        let from_right: bool = l.len() == 0 || (r.len() > 0 && name_not_behind(
            l[l.len() - 1].name.as_str(),
            r[r.len() - 1].name.as_str(),
        ));
        let ghost l0 = l@;
        let ghost r0 = r@;
        let ghost tail0 = tail;
        let taken = if from_right {
            r.pop()
        } else {
            l.pop()
        };
        if let Some(entry) = taken {
            proof {
                tail = seq![entry] + tail0;
                assert(tail.reverse() =~= out@.push(entry));
                lemma_order_reflexive(key(entry));
                if !from_right && r0.len() > 0 {
                    lemma_order_total(key(l0.last()), key(r0.last()));
                }
                assert forall|i: int| 0 <= i < l@.len() implies not_behind(
                    #[trigger] key(l@[i]),
                    key(entry),
                ) by {
                    assert(l@[i] == l0[i]);
                    let last = l0[l0.len() - 1];
                    assert(not_behind(key(l0[i]), key(last)));
                    if from_right {
                        lemma_order_transitive(key(l0[i]), key(last), key(entry));
                    }
                }
                assert forall|i: int| 0 <= i < r@.len() implies not_behind(
                    #[trigger] key(r@[i]),
                    key(entry),
                ) by {
                    assert(r@[i] == r0[i]);
                    let last = r0[r0.len() - 1];
                    assert(not_behind(key(r0[i]), key(last)));
                    if !from_right {
                        lemma_order_transitive(key(r0[i]), key(last), key(entry));
                    }
                }
                assert forall|i: int, j: int| 0 <= i <= j < tail.len() implies not_behind(
                    #[trigger] key(tail[i]),
                    #[trigger] key(tail[j]),
                ) by {
                    if j > 0 {
                        assert(tail[j] == tail0[j - 1]);
                        if i > 0 {
                            assert(tail[i] == tail0[i - 1]);
                        } else if from_right {
                            assert(not_behind(key(r0[r0.len() - 1]), key(tail0[j - 1])));
                        } else {
                            assert(not_behind(key(l0[l0.len() - 1]), key(tail0[j - 1])));
                        }
                    }
                }
                assert forall|i: int, j: int|
                    0 <= i < l@.len() && 0 <= j < tail.len() implies not_behind(
                    #[trigger] key(l@[i]),
                    #[trigger] key(tail[j]),
                ) by {
                    assert(l@[i] == l0[i]);
                    if j > 0 {
                        assert(tail[j] == tail0[j - 1]);
                    }
                }
                assert forall|i: int, j: int|
                    0 <= i < r@.len() && 0 <= j < tail.len() implies not_behind(
                    #[trigger] key(r@[i]),
                    #[trigger] key(tail[j]),
                ) by {
                    assert(r@[i] == r0[i]);
                    if j > 0 {
                        assert(tail[j] == tail0[j - 1]);
                    }
                }
                assert forall|k: Seq<u8>| #[trigger] entries_of(left@, k) + entries_of(right@, k)
                    == entries_of(l@, k) + entries_of(r@, k) + entries_of(tail, k) by {
                    if from_right {
                        lemma_move_last(r0, tail0, k);
                        assert(r@ =~= r0.drop_last());
                        assert(entries_of(l@, k) + entries_of(r@, k) + entries_of(tail, k)
                            =~= entries_of(l0, k) + entries_of(r0, k) + entries_of(tail0, k));
                    } else {
                        lemma_move_last(l0, tail0, k);
                        assert(l@ =~= l0.drop_last());
                        lemma_entries_of_one(entry, k);
                        if key(entry) == k {
                            assert forall|i: int| 0 <= i < r0.len() implies key(#[trigger] r0[i])
                                != k by {
                                assert(not_behind(key(r0[i]), key(r0[r0.len() - 1])));
                                if key(r0[i]) == k {
                                    assert(not_behind(key(l0.last()), key(r0.last())));
                                }
                            }
                            lemma_entries_of_none(r0, k);
                        }
                        assert(entries_of(l@, k) + entries_of(r@, k) + entries_of(tail, k)
                            =~= entries_of(l0, k) + entries_of(r0, k) + entries_of(tail0, k));
                    }
                }
            }
            out.push(entry);
        }
    }
    proof {
        assert(out@.reverse() =~= tail);
        assert forall|k: Seq<u8>| #[trigger] entries_of(tail, k) == entries_of(
            left@ + right@,
            k,
        ) by {
            lemma_entries_of_add(left@, right@, k);
            lemma_entries_of_none(l@, k);
            lemma_entries_of_none(r@, k);
            assert(entries_of(left@, k) + entries_of(right@, k) == entries_of(l@, k) + entries_of(
                r@,
                k,
            ) + entries_of(tail, k));
            assert(entries_of(tail, k) =~= entries_of(left@ + right@, k));
        }
    }
    reversed(out)
}

/// The entries in the order of the bytes of their names. Entries with the same name keep their
/// order.
pub fn sort_entries(entries: Vec<DirectoryEntry>) -> (r: Vec<DirectoryEntry>)
    ensures
        in_order(r@),
        same_entries(r@, entries@),
        r@.len() == entries@.len(),
    decreases entries@.len(),
{
    let n = entries.len();
    if n <= 1 {
        proof {
            if n == 1 {
                lemma_order_reflexive(key(entries@[0]));
            }
        }
        return entries;
    }
    let mut left = entries;
    let right = left.split_off(n / 2);
    let ghost l0 = left@;
    let ghost r0 = right@;
    let sorted_left = sort_entries(left);
    let sorted_right = sort_entries(right);
    let ghost l1 = sorted_left@;
    let ghost r1 = sorted_right@;
    let sorted = merged(sorted_left, sorted_right);
    proof {
        assert(entries@ =~= l0 + r0);
        assert forall|k: Seq<u8>| #[trigger] entries_of(sorted@, k) == entries_of(entries@, k) by {
            lemma_entries_of_add(l0, r0, k);
            lemma_entries_of_add(l1, r1, k);
            assert(entries_of(l1, k) == entries_of(l0, k));
            assert(entries_of(r1, k) == entries_of(r0, k));
        }
    }
    sorted
}

proof fn lemma_entries_of_last(entries: Seq<DirectoryEntry>, k: Seq<u8>)
    requires
        entries.len() > 0,
    ensures
        entries_of(entries, k) == (if key(entries.last()) == k {
            entries_of(entries.drop_last(), k).push(entries.last())
        } else {
            entries_of(entries.drop_last(), k)
        }),
{
    reveal(Seq::filter);
}

proof fn lemma_entries_of_some(entries: Seq<DirectoryEntry>, k: Seq<u8>) -> (i: int)
    requires
        entries_of(entries, k).len() > 0,
    ensures
        0 <= i < entries.len(),
        key(entries[i]) == k,
    decreases entries.len(),
{
    if entries.len() == 0 {
        lemma_entries_of_none(entries, k);
        0
    } else if key(entries.last()) == k {
        entries.len() - 1
    } else {
        lemma_entries_of_last(entries, k);
        lemma_entries_of_some(entries.drop_last(), k)
    }
}

/// Whether no two entries have the same name.
pub open spec fn distinct(entries: Seq<DirectoryEntry>) -> bool {
    forall|i: int, j: int|
        0 <= i < j < entries.len() ==> #[trigger] entries[i].name@ != #[trigger] entries[j].name@
}

proof fn lemma_same_entries_contain(
    a: Seq<DirectoryEntry>,
    b: Seq<DirectoryEntry>,
    e: DirectoryEntry,
)
    requires
        same_entries(a, b),
        a.contains(e),
    ensures
        b.contains(e),
{
    let k = key(e);
    let i = choose|i: int| 0 <= i < a.len() && a[i] == e;
    a.lemma_filter_contains(|x: DirectoryEntry| key(x) == k, i);
    assert(entries_of(a, k).contains(e));
    assert(entries_of(a, k) == entries_of(b, k));
    b.lemma_filter_contains_rev(|x: DirectoryEntry| key(x) == k, e);
}

/// Of entries with names of their own, none shares its name with another one.
proof fn lemma_distinct_entries(entries: Seq<DirectoryEntry>, k: Seq<u8>)
    requires
        distinct(entries),
    ensures
        entries_of(entries, k).len() <= 1,
    decreases entries.len(),
{
    if entries.len() == 0 {
        lemma_entries_of_none(entries, k);
    } else {
        let rest = entries.drop_last();
        assert(distinct(rest)) by {
            assert forall|i: int, j: int| 0 <= i < j < rest.len() implies #[trigger] rest[i].name@
                != #[trigger] rest[j].name@ by {
                assert(entries[i].name@ != entries[j].name@);
            }
        }
        lemma_entries_of_last(entries, k);
        if key(entries.last()) == k {
            assert forall|i: int| 0 <= i < rest.len() implies key(#[trigger] rest[i]) != k by {
                assert(entries[i].name@ != entries[entries.len() - 1].name@);
                if key(rest[i]) == k {
                    lemma_same_encoding(rest[i].name@, entries.last().name@);
                }
            }
            lemma_entries_of_none(rest, k);
        } else {
            lemma_distinct_entries(rest, k);
        }
    }
}

/// Listings with the same entries have each entry of one another, and where the names in one of them
/// are distinct, they are in the other one.
pub proof fn lemma_same_entries(a: Seq<DirectoryEntry>, b: Seq<DirectoryEntry>)
    requires
        same_entries(a, b),
        distinct(b),
    ensures
        forall|e: DirectoryEntry| #[trigger] a.contains(e) <==> b.contains(e),
        distinct(a),
{
    assert forall|e: DirectoryEntry| #[trigger] a.contains(e) <==> b.contains(e) by {
        if a.contains(e) {
            lemma_same_entries_contain(a, b, e);
        }
        if b.contains(e) {
            assert forall|k: Seq<u8>| #[trigger] entries_of(b, k) == entries_of(a, k) by {
                assert(entries_of(a, k) == entries_of(b, k));
            }
            lemma_same_entries_contain(b, a, e);
        }
    }
    assert forall|i: int, j: int| 0 <= i < j < a.len() implies #[trigger] a[i].name@
        != #[trigger] a[j].name@ by {
        if a[i].name@ == a[j].name@ {
            let k = key(a[i]);
            let pred = |x: DirectoryEntry| key(x) == k;
            let front = a.take(j);
            let behind = a.skip(j);
            assert(front + behind =~= a);
            lemma_entries_of_add(front, behind, k);
            front.lemma_filter_contains(pred, i);
            behind.lemma_filter_contains(pred, 0);
            assert(entries_of(front, k).contains(front[i]));
            assert(entries_of(behind, k).contains(behind[0]));
            lemma_distinct_entries(b, k);
            assert(entries_of(a, k) == entries_of(b, k));
        }
    }
}

/// Whether `k` is where two byte strings part: up to there they are the same, and there the first
/// one ends or has the smaller byte.
pub open spec fn parts_at(a: Seq<u8>, b: Seq<u8>, k: int) -> bool {
    &&& 0 <= k <= a.len()
    &&& k <= b.len()
    &&& forall|j: int| 0 <= j < k ==> #[trigger] a[j] == b[j]
    &&& k == a.len() || (k < b.len() && a[k] < b[k])
}

/// Names are ordered by their bytes: a name does not come behind another one exactly if that one
/// continues it, or if at the first byte at which they differ, its own is the smaller one.
pub proof fn law_order_is_by_bytes(a: Seq<u8>, b: Seq<u8>)
    ensures
        not_behind(a, b) <==> exists|k: int| #[trigger] parts_at(a, b, k),
    decreases a.len(),
{
    if a.len() == 0 {
        assert(parts_at(a, b, 0));
    } else if b.len() > 0 && a[0] != b[0] {
        if a[0] < b[0] {
            assert(parts_at(a, b, 0));
        }
        assert forall|k: int| #[trigger] parts_at(a, b, k) implies k == 0 by {
            if k > 0 {
                assert(a[0] == b[0]);
            }
        }
    } else if b.len() > 0 {
        let x = a.drop_first();
        let y = b.drop_first();
        law_order_is_by_bytes(x, y);
        if not_behind(x, y) {
            let k = choose|k: int| #[trigger] parts_at(x, y, k);
            assert forall|j: int| 0 <= j < k + 1 implies #[trigger] a[j] == b[j] by {
                if j > 0 {
                    assert(x[j - 1] == y[j - 1]);
                }
            }
            assert(parts_at(a, b, k + 1));
        }
        if exists|k: int| #[trigger] parts_at(a, b, k) {
            let k = choose|k: int| #[trigger] parts_at(a, b, k);
            assert(k > 0);
            assert forall|j: int| 0 <= j < k - 1 implies #[trigger] x[j] == y[j] by {
                assert(a[j + 1] == b[j + 1]);
            }
            assert(parts_at(x, y, k - 1));
        }
    }
}

/// In a listing that is in order, the name of an earlier entry is continued by that of a later one,
/// or has the smaller byte where they first differ in UTF-8.
pub proof fn law_listing_is_ordered_by_bytes(entries: Seq<DirectoryEntry>, i: int, j: int)
    requires
        in_order(entries),
        0 <= i < j < entries.len(),
    ensures
        exists|k: int| #[trigger]
            parts_at(encode_utf8(entries[i].name@), encode_utf8(entries[j].name@), k),
{
    assert(not_behind(key(entries[i]), key(entries[j])));
    law_order_is_by_bytes(key(entries[i]), key(entries[j]));
}

/// To put entries in order keeps them: of each name there are the same ones, in the same order.
pub proof fn law_order_keeps_entries(
    sorted: Seq<DirectoryEntry>,
    entries: Seq<DirectoryEntry>,
    name: Seq<char>,
)
    requires
        same_entries(sorted, entries),
    ensures
        sorted.filter(|e: DirectoryEntry| e.name@ == name) == entries.filter(
            |e: DirectoryEntry| e.name@ == name,
        ),
{
    let k = encode_utf8(name);
    let by_name = |e: DirectoryEntry| e.name@ == name;
    let by_key = |e: DirectoryEntry| key(e) == k;
    assert forall|e: DirectoryEntry| #[trigger] by_name(e) == by_key(e) by {
        if by_key(e) {
            lemma_same_encoding(e.name@, name);
        }
    }
    assert(by_name =~= by_key);
    assert(entries_of(sorted, k) == entries_of(entries, k));
}

/// There is one way to put the entries of a directory in order: listings in order that have the
/// same entries, with those of one name in the same order, are the same.
pub proof fn law_order_is_unique(a: Seq<DirectoryEntry>, b: Seq<DirectoryEntry>)
    requires
        in_order(a),
        in_order(b),
        same_entries(a, b),
    ensures
        a == b,
    decreases a.len(),
{
    if a.len() == 0 {
        if b.len() > 0 {
            lemma_entries_of_last(b, key(b.last()));
            assert(entries_of(a, key(b.last())) == entries_of(b, key(b.last())));
            lemma_entries_of_none(a, key(b.last()));
        }
        assert(a =~= b);
    } else {
        let ka = key(a.last());
        lemma_entries_of_last(a, ka);
        assert(entries_of(a, ka) == entries_of(b, ka));
        let i = lemma_entries_of_some(b, ka);
        let kb = key(b.last());
        lemma_entries_of_last(b, kb);
        assert(entries_of(a, kb) == entries_of(b, kb));
        let j = lemma_entries_of_some(a, kb);
        assert(not_behind(key(b[i]), key(b[b.len() - 1])));
        assert(not_behind(key(a[j]), key(a[a.len() - 1])));
        lemma_order_antisymmetric(ka, kb);
        lemma_entries_of_last(b, ka);
        assert(entries_of(a, ka).last() == a.last());
        assert(entries_of(b, ka).last() == b.last());
        let x = a.drop_last();
        let y = b.drop_last();
        assert forall|i: int, j: int| 0 <= i <= j < x.len() implies not_behind(
            #[trigger] key(x[i]),
            #[trigger] key(x[j]),
        ) by {
            assert(not_behind(key(a[i]), key(a[j])));
        }
        assert forall|i: int, j: int| 0 <= i <= j < y.len() implies not_behind(
            #[trigger] key(y[i]),
            #[trigger] key(y[j]),
        ) by {
            assert(not_behind(key(b[i]), key(b[j])));
        }
        assert forall|k: Seq<u8>| #[trigger] entries_of(x, k) == entries_of(y, k) by {
            lemma_entries_of_last(a, k);
            lemma_entries_of_last(b, k);
            assert(entries_of(a, k) == entries_of(b, k));
            if k == ka {
                assert(entries_of(x, k) =~= entries_of(a, k).drop_last());
                assert(entries_of(y, k) =~= entries_of(b, k).drop_last());
            }
        }
        law_order_is_unique(x, y);
        assert(a =~= x.push(a.last()));
        assert(b =~= y.push(b.last()));
    }
}

} // verus!
