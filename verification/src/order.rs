use crate::store::FrameFile;
use vstd::multiset::Multiset;
use vstd::prelude::*;
use vstd::string::StrSliceExecFns;

verus! {

/// Whether name `a` sorts before name `b`, or is the same name.
///
/// Names are ordered like words in a dictionary, character by character,
/// a character standing before another when its code point is smaller.
pub open spec fn name_before(a: Seq<char>, b: Seq<char>) -> bool
    decreases a.len(),
{
    if a.len() == 0 {
        true
    } else if b.len() == 0 {
        false
    } else if a[0] == b[0] {
        name_before(a.drop_first(), b.drop_first())
    } else {
        a[0] < b[0]
    }
}

/// Every file's name sorts before the names of the files after it.
pub open spec fn sorted_by_name(files: Seq<FrameFile>) -> bool {
    forall|i: int, j: int|
        0 <= i < j < files.len() ==> name_before(
            (#[trigger] files[i]).name@,
            (#[trigger] files[j]).name@,
        )
}

/// Of two names, one sorts before the other.
pub proof fn lemma_names_are_comparable(a: Seq<char>, b: Seq<char>)
    ensures
        name_before(a, b) || name_before(b, a),
    decreases a.len(),
{
    if a.len() > 0 && b.len() > 0 && a[0] == b[0] {
        lemma_names_are_comparable(a.drop_first(), b.drop_first());
    }
}

/// What sorts before a name also sorts before every name after it.
pub proof fn lemma_name_order_is_transitive(a: Seq<char>, b: Seq<char>, c: Seq<char>)
    requires
        name_before(a, b),
        name_before(b, c),
    ensures
        name_before(a, c),
    decreases a.len(),
{
    if a.len() > 0 && b.len() > 0 && c.len() > 0 && a[0] == b[0] && b[0] == c[0] {
        lemma_name_order_is_transitive(a.drop_first(), b.drop_first(), c.drop_first());
    }
}

/// Two names that sort before each other are one name.
pub proof fn lemma_name_order_is_antisymmetric(a: Seq<char>, b: Seq<char>)
    requires
        name_before(a, b),
        name_before(b, a),
    ensures
        a == b,
    decreases a.len(),
{
    if a.len() > 0 && b.len() > 0 {
        lemma_name_order_is_antisymmetric(a.drop_first(), b.drop_first());
        assert(a =~= seq![a[0]] + a.drop_first());
        assert(b =~= seq![b[0]] + b.drop_first());
    } else {
        assert(a =~= b);
    }
}

/// No two files carry the same name.
pub open spec fn distinct_names(files: Seq<FrameFile>) -> bool {
    forall|i: int, j: int|
        0 <= i < j < files.len() ==> (#[trigger] files[i]).name@ != (#[trigger] files[j]).name@
}

/// The same files in another order still have names of their own.
pub proof fn lemma_permutation_keeps_names_distinct(files: Seq<FrameFile>, other: Seq<FrameFile>)
    requires
        distinct_names(files),
        other.to_multiset() == files.to_multiset(),
    ensures
        distinct_names(other),
{
    files.to_multiset_ensures();
    other.to_multiset_ensures();
    assert forall|i: int, j: int| 0 <= i < j < other.len() implies (#[trigger] other[i]).name@ != (
    #[trigger] other[j]).name@ by {
        if other[i].name@ == other[j].name@ {
            assert(other.contains(other[i]));
            assert(other.contains(other[j]));
            assert(other.to_multiset().count(other[i]) > 0);
            assert(other.to_multiset().count(other[j]) > 0);
            assert(files.to_multiset().count(other[i]) > 0);
            assert(files.to_multiset().count(other[j]) > 0);
            assert(files.contains(other[i]));
            assert(files.contains(other[j]));
            let a = choose|a: int| 0 <= a < files.len() && files[a] == other[i];
            let b = choose|b: int| 0 <= b < files.len() && files[b] == other[j];
            if a == b {
                assert(files.no_duplicates()) by {
                    assert forall|x: int, y: int|
                        0 <= x < files.len() && 0 <= y < files.len() && x != y implies files[x]
                        != files[y] by {
                        if x < y {
                            assert(files[x].name@ != files[y].name@);
                        } else {
                            assert(files[y].name@ != files[x].name@);
                        }
                    }
                }
                files.lemma_multiset_has_no_duplicates();
                assert(files.to_multiset().count(other[i]) == 1);
                other.lemma_multiset_has_no_duplicates_conv();
                assert(other[i] != other[j]);
            } else if a < b {
                assert(files[a].name@ != files[b].name@);
            } else {
                assert(files[b].name@ != files[a].name@);
            }
        }
    }
}

/// Files with names of their own can be sorted in one way only: however a
/// directory was enumerated, its sorted files are the same sequence.
pub proof fn lemma_sorted_order_is_unique(first: Seq<FrameFile>, second: Seq<FrameFile>)
    requires
        first.to_multiset() == second.to_multiset(),
        sorted_by_name(first),
        sorted_by_name(second),
        distinct_names(first),
    ensures
        first == second,
    decreases first.len(),
{
    first.to_multiset_ensures();
    second.to_multiset_ensures();
    if first.len() == 0 {
        assert(first =~= second);
    } else {
        let x = first[0];
        let y = second[0];
        assert(first.contains(x));
        assert(second.contains(y));
        assert(second.to_multiset().count(x) > 0);
        assert(first.to_multiset().count(y) > 0);
        let k = choose|k: int| 0 <= k < second.len() && second[k] == x;
        let m = choose|m: int| 0 <= m < first.len() && first[m] == y;
        if k != 0 {
            assert(name_before(second[0].name@, second[k].name@));
        } else {
            lemma_names_are_comparable(x.name@, y.name@);
        }
        if m != 0 {
            assert(name_before(first[0].name@, first[m].name@));
            lemma_name_order_is_antisymmetric(x.name@, y.name@);
            assert(first[0].name@ != first[m].name@);
        }
        assert(x == y);
        let rest = first.remove(0);
        let other = second.remove(0);
        vstd::seq_lib::to_multiset_remove(first, 0);
        vstd::seq_lib::to_multiset_remove(second, 0);
        assert forall|i: int, j: int| 0 <= i < j < rest.len() implies name_before(
            (#[trigger] rest[i]).name@,
            (#[trigger] rest[j]).name@,
        ) && rest[i].name@ != rest[j].name@ by {
            assert(rest[i] == first[i + 1] && rest[j] == first[j + 1]);
        }
        assert forall|i: int, j: int| 0 <= i < j < other.len() implies name_before(
            (#[trigger] other[i]).name@,
            (#[trigger] other[j]).name@,
        ) by {
            assert(other[i] == second[i + 1] && other[j] == second[j + 1]);
        }
        lemma_sorted_order_is_unique(rest, other);
        assert(first =~= seq![x] + rest);
        assert(second =~= seq![y] + other);
    }
}

/// Whether the name `a` sorts before the name `b`, or is the same name.
pub fn sorts_before(a: &String, b: &String) -> (before: bool)
    ensures
        before == name_before(a@, b@),
{
    let left = a.as_str();
    let right = b.as_str();
    let left_len: usize = left.unicode_len();
    let right_len: usize = right.unicode_len();
    let mut i: usize = 0;
    assert(left@.skip(0) =~= left@ && right@.skip(0) =~= right@);
    while i < left_len && i < right_len
        invariant
            i <= left_len,
            i <= right_len,
            left@ == a@,
            right@ == b@,
            left_len == left@.len(),
            right_len == right@.len(),
            name_before(left@, right@) == name_before(left@.skip(i as int), right@.skip(i as int)),
        decreases left_len - i,
    {
        let here = left.get_char(i);
        let there = right.get_char(i);
        proof {
            assert(left@.skip(i as int)[0] == here);
            assert(right@.skip(i as int)[0] == there);
            assert(left@.skip(i as int).drop_first() =~= left@.skip(i + 1));
            assert(right@.skip(i as int).drop_first() =~= right@.skip(i + 1));
        }
        if here != there {
            assert(name_before(left@.skip(i as int), right@.skip(i as int)) == (here < there));
            return here < there;
        }
        i = i + 1;
    }
    left_len <= right_len
}

/// Sorts the files of one directory by name, so that its frames play in an
/// order that does not depend on how the file system enumerated them.
///
/// The files are the same afterwards, each as often as before.
pub fn sort_by_name(files: &mut Vec<FrameFile>)
    ensures
        final(files)@.to_multiset() == old(files)@.to_multiset(),
        sorted_by_name(final(files)@),
{
    broadcast use vstd::seq_lib::group_to_multiset_ensures;

    let mut sorted: Vec<FrameFile> = Vec::new();
    while files.len() > 0
        invariant
            sorted_by_name(sorted@),
            sorted@.to_multiset().add(files@.to_multiset()) == old(files)@.to_multiset(),
        decreases files.len(),
    {
        let ghost rest = files@;
        let ghost placed = sorted@;
        let file = files.remove(0);
        let mut at: usize = 0;
        while at < sorted.len() && sorts_before(&sorted[at].name, &file.name)
            invariant
                at <= sorted.len(),
                forall|k: int|
                    0 <= k < at ==> name_before((#[trigger] sorted[k]).name@, file.name@),
            decreases sorted.len() - at,
        {
            at = at + 1;
        }
        proof {
            let longer = placed.insert(at as int, file);
            assert forall|i: int, j: int| 0 <= i < j < longer.len() implies name_before(
                (#[trigger] longer[i]).name@,
                (#[trigger] longer[j]).name@,
            ) by {
                if j < at {
                    assert(longer[i] == placed[i] && longer[j] == placed[j]);
                } else if j == at {
                    assert(longer[i] == placed[i]);
                } else if i < at {
                    assert(longer[i] == placed[i] && longer[j] == placed[j - 1]);
                    if i < j - 1 {
                    } else {
                        lemma_names_are_comparable(placed[at as int].name@, file.name@);
                        lemma_name_order_is_transitive(
                            placed[i].name@,
                            file.name@,
                            placed[at as int].name@,
                        );
                    }
                } else if i == at {
                    assert(longer[j] == placed[j - 1]);
                    lemma_names_are_comparable(placed[at as int].name@, file.name@);
                    if j - 1 > at {
                        lemma_name_order_is_transitive(
                            file.name@,
                            placed[at as int].name@,
                            placed[j - 1].name@,
                        );
                    }
                } else {
                    assert(longer[i] == placed[i - 1] && longer[j] == placed[j - 1]);
                }
            }
            vstd::seq_lib::to_multiset_remove(rest, 0);
            vstd::seq_lib::to_multiset_insert(placed, at as int, file);
            assert(rest.remove(0).to_multiset() =~= rest.to_multiset().remove(file));
            assert(longer.to_multiset() =~= placed.to_multiset().insert(file));
            assert(rest.to_multiset().count(file) > 0) by {
                rest.to_multiset_ensures();
                assert(rest[0] == file);
                assert(rest.contains(file));
            }
            assert(longer.to_multiset().add(rest.remove(0).to_multiset()) =~= placed.to_multiset().add(
                rest.to_multiset(),
            ));
        }
        sorted.insert(at, file);
    }
    proof {
        assert(files@.to_multiset() =~= Multiset::<FrameFile>::empty());
        assert(sorted@.to_multiset().add(files@.to_multiset()) =~= sorted@.to_multiset());
    }
    *files = sorted;
}

} // verus!
