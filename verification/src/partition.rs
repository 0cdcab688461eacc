//! What grouping a graded pool gives.
//!
//! A graded pool is a sequence of words, each with its grade. Its partition has one
//! bucket for each grade that occurs, in the order in which the grades first occur,
//! and each bucket holds the words of that grade in the order of the pool.

use vstd::multiset::Multiset;
use vstd::prelude::*;

verus! {

/// The grades that occur in a graded pool, each once, in the order of their first
/// occurrence.
pub open spec fn grades_seen(graded: Seq<(Seq<char>, nat)>) -> Seq<nat>
    decreases graded.len(),
{
    if graded.len() == 0 {
        Seq::empty()
    } else {
        let before = grades_seen(graded.drop_last());
        if before.contains(graded.last().1) {
            before
        } else {
            before.push(graded.last().1)
        }
    }
}

/// The words of a graded pool that have the given grade, in the order of the pool.
pub open spec fn words_graded(graded: Seq<(Seq<char>, nat)>, grade: nat) -> Seq<Seq<char>>
    decreases graded.len(),
{
    if graded.len() == 0 {
        Seq::empty()
    } else {
        let before = words_graded(graded.drop_last(), grade);
        if graded.last().1 == grade {
            before.push(graded.last().0)
        } else {
            before
        }
    }
}

/// The partition of a graded pool: for each grade that occurs, in the order of first
/// occurrence, the grade and its words.
pub open spec fn partition(graded: Seq<(Seq<char>, nat)>) -> Seq<(nat, Seq<Seq<char>>)> {
    Seq::new(
        grades_seen(graded).len(),
        |i: int| (grades_seen(graded)[i], words_graded(graded, grades_seen(graded)[i])),
    )
}

/// The words of a graded pool, without their grades.
pub open spec fn words_of(graded: Seq<(Seq<char>, nat)>) -> Seq<Seq<char>> {
    Seq::new(graded.len(), |i: int| graded[i].0)
}

/// The number of words in all buckets together.
pub open spec fn total_words(buckets: Seq<(nat, Seq<Seq<char>>)>) -> nat
    decreases buckets.len(),
{
    if buckets.len() == 0 {
        0
    } else {
        total_words(buckets.drop_last()) + buckets.last().1.len()
    }
}

/// The words of all buckets together, each as often as it occurs.
pub open spec fn all_words(buckets: Seq<(nat, Seq<Seq<char>>)>) -> Multiset<Seq<char>>
    decreases buckets.len(),
{
    if buckets.len() == 0 {
        Multiset::empty()
    } else {
        all_words(buckets.drop_last()).add(buckets.last().1.to_multiset())
    }
}

/// A grade is among the grades seen exactly if some word of the pool has it.
pub proof fn lemma_grades_seen_complete(graded: Seq<(Seq<char>, nat)>, grade: nat)
    ensures
        grades_seen(graded).contains(grade) <==> exists|k: int|
            0 <= k < graded.len() && (#[trigger] graded[k]).1 == grade,
    decreases graded.len(),
{
    if graded.len() > 0 {
        let front = graded.drop_last();
        let before = grades_seen(front);
        lemma_grades_seen_complete(front, grade);
        if grades_seen(graded).contains(grade) {
            if before.contains(grade) {
                let k = choose|k: int| 0 <= k < front.len() && (#[trigger] front[k]).1 == grade;
                assert(graded[k] == front[k]);
            } else {
                let i = choose|i: int|
                    0 <= i < grades_seen(graded).len() && grades_seen(graded)[i] == grade;
                assert(grades_seen(graded) == before.push(graded.last().1));
                if i < before.len() {
                    assert(before[i] == grade);
                    assert(before.contains(grade));
                }
                assert(graded[graded.len() - 1].1 == grade);
            }
        }
        if exists|k: int| 0 <= k < graded.len() && (#[trigger] graded[k]).1 == grade {
            let k = choose|k: int| 0 <= k < graded.len() && (#[trigger] graded[k]).1 == grade;
            if k < front.len() {
                assert(front[k] == graded[k]);
                assert(before.contains(grade));
                if !before.contains(graded.last().1) {
                    let i = choose|i: int| 0 <= i < before.len() && before[i] == grade;
                    assert(before.push(graded.last().1)[i] == grade);
                }
            } else {
                if !before.contains(grade) {
                    assert(before.push(grade)[before.len() as int] == grade);
                }
            }
        }
    }
}

/// No grade is seen twice.
pub proof fn lemma_grades_seen_distinct(graded: Seq<(Seq<char>, nat)>)
    ensures
        forall|i: int, j: int|
            0 <= i < j < grades_seen(graded).len() ==> grades_seen(graded)[i] != grades_seen(
                graded,
            )[j],
    decreases graded.len(),
{
    if graded.len() > 0 {
        let before = grades_seen(graded.drop_last());
        let seen = grades_seen(graded);
        lemma_grades_seen_distinct(graded.drop_last());
        assert forall|i: int, j: int| 0 <= i < j < seen.len() implies seen[i] != seen[j] by {
            if !before.contains(graded.last().1) {
                assert(seen == before.push(graded.last().1));
                if j == before.len() {
                    assert(seen[i] == before[i]);
                    assert(before.contains(before[i]));
                } else {
                    assert(seen[i] == before[i] && seen[j] == before[j]);
                }
            }
        }
    }
}

/// A grade has words exactly if it is among the grades seen.
pub proof fn lemma_bucket_not_empty(graded: Seq<(Seq<char>, nat)>, grade: nat)
    ensures
        grades_seen(graded).contains(grade) <==> words_graded(graded, grade).len() > 0,
    decreases graded.len(),
{
    if graded.len() > 0 {
        let front = graded.drop_last();
        let before = grades_seen(front);
        lemma_bucket_not_empty(front, grade);
        if before.contains(grade) && !before.contains(graded.last().1) {
            let i = choose|i: int| 0 <= i < before.len() && before[i] == grade;
            assert(before.push(graded.last().1)[i] == grade);
        }
        if graded.last().1 == grade && !before.contains(grade) {
            assert(before.push(grade)[before.len() as int] == grade);
        }
        if grades_seen(graded).contains(grade) && !before.contains(grade) {
            let i = choose|i: int|
                0 <= i < grades_seen(graded).len() && grades_seen(graded)[i] == grade;
            if before.contains(graded.last().1) {
            } else if i < before.len() {
                assert(before[i] == grade);
            }
        }
    }
}

/// What one more graded word does to the words of a grade: it is added at the end if
/// the grade is its own, and nothing changes otherwise.
pub proof fn lemma_words_graded_push(graded: Seq<(Seq<char>, nat)>, next: (Seq<char>, nat), grade: nat)
    ensures
        words_graded(graded.push(next), grade) == if next.1 == grade {
            words_graded(graded, grade).push(next.0)
        } else {
            words_graded(graded, grade)
        },
{
    assert(graded.push(next).drop_last() =~= graded);
}

/// What one more graded word does to the partition: its word is added at the end of
/// the bucket of its grade if there is one, and a new last bucket holds it otherwise.
pub proof fn lemma_partition_push(graded: Seq<(Seq<char>, nat)>, next: (Seq<char>, nat))
    ensures
        grades_seen(graded).contains(next.1) ==> exists|at: int|
            0 <= at < partition(graded).len() && (#[trigger] partition(graded)[at]).0 == next.1
                && partition(graded.push(next)) == partition(graded).update(
                at,
                (next.1, partition(graded)[at].1.push(next.0)),
            ),
        !grades_seen(graded).contains(next.1) ==> partition(graded.push(next)) == partition(
            graded,
        ).push((next.1, seq![next.0])),
{
    let more = graded.push(next);
    let before = partition(graded);
    let seen = grades_seen(graded);
    assert(more.drop_last() =~= graded);
    lemma_grades_seen_distinct(graded);
    if seen.contains(next.1) {
        let at = choose|at: int| 0 <= at < seen.len() && seen[at] == next.1;
        let after = before.update(at, (next.1, before[at].1.push(next.0)));
        assert forall|i: int| 0 <= i < seen.len() implies #[trigger] partition(more)[i]
            == after[i] by {
            lemma_words_graded_push(graded, next, seen[i]);
        }
        assert(partition(more) =~= after);
        assert(before[at].0 == next.1);
    } else {
        let after = before.push((next.1, seq![next.0]));
        lemma_bucket_not_empty(graded, next.1);
        assert forall|i: int| 0 <= i < seen.len() + 1 implies #[trigger] partition(more)[i]
            == after[i] by {
            if i < seen.len() {
                assert(seen.contains(seen[i]));
                lemma_words_graded_push(graded, next, seen[i]);
            } else {
                lemma_words_graded_push(graded, next, next.1);
                assert(words_graded(graded, next.1) =~= Seq::empty());
                assert(Seq::<Seq<char>>::empty().push(next.0) =~= seq![next.0]);
            }
        }
        assert(partition(more) =~= after);
    }
}

/// The words of the first `n` buckets are among the words of all buckets.
pub proof fn lemma_total_words_of_prefix(buckets: Seq<(nat, Seq<Seq<char>>)>, n: nat)
    requires
        n <= buckets.len(),
    ensures
        total_words(buckets.subrange(0, n as int)) <= total_words(buckets),
    decreases buckets.len(),
{
    if n < buckets.len() {
        assert(buckets.drop_last().subrange(0, n as int) =~= buckets.subrange(0, n as int));
        lemma_total_words_of_prefix(buckets.drop_last(), n);
    } else {
        assert(buckets.subrange(0, n as int) =~= buckets);
    }
}

/// Buckets that all hold a word are no more than their words.
pub proof fn lemma_buckets_hold_words(buckets: Seq<(nat, Seq<Seq<char>>)>)
    requires
        forall|i: int| 0 <= i < buckets.len() ==> (#[trigger] buckets[i]).1.len() > 0,
    ensures
        buckets.len() <= total_words(buckets),
    decreases buckets.len(),
{
    if buckets.len() > 0 {
        let front = buckets.drop_last();
        assert forall|i: int| 0 <= i < front.len() implies (#[trigger] front[i]).1.len() > 0 by {
            assert(front[i] == buckets[i]);
        }
        lemma_buckets_hold_words(front);
        assert(buckets[buckets.len() - 1].1.len() > 0);
    }
}

/// One more word at the end of one bucket is one more word in all, and no other
/// change.
proof fn lemma_words_after_push(buckets: Seq<(nat, Seq<Seq<char>>)>, at: int, word: Seq<char>)
    requires
        0 <= at < buckets.len(),
    ensures
        total_words(buckets.update(at, (buckets[at].0, buckets[at].1.push(word)))) == total_words(
            buckets,
        ) + 1,
        all_words(buckets.update(at, (buckets[at].0, buckets[at].1.push(word)))) == all_words(
            buckets,
        ).insert(word),
    decreases buckets.len(),
{
    broadcast use vstd::seq_lib::to_multiset_build;

    let after = buckets.update(at, (buckets[at].0, buckets[at].1.push(word)));
    if at == buckets.len() - 1 {
        assert(after.drop_last() =~= buckets.drop_last());
        assert(all_words(after) =~= all_words(buckets).insert(word));
    } else {
        let front = buckets.drop_last();
        lemma_words_after_push(front, at, word);
        assert(after.drop_last() =~= front.update(at, (front[at].0, front[at].1.push(word))));
        assert(all_words(after) =~= all_words(buckets).insert(word));
    }
}

/// The buckets of a partition hold as many words as the pool has.
pub proof fn lemma_partition_keeps_count(graded: Seq<(Seq<char>, nat)>)
    ensures
        total_words(partition(graded)) == graded.len(),
    decreases graded.len(),
{
    if graded.len() == 0 {
        assert(partition(graded) =~= Seq::empty());
    } else {
        let front = graded.drop_last();
        let next = graded.last();
        assert(front.push(next) =~= graded);
        lemma_partition_keeps_count(front);
        lemma_partition_push(front, next);
        if grades_seen(front).contains(next.1) {
            let at = choose|at: int|
                0 <= at < partition(front).len() && (#[trigger] partition(front)[at]).0 == next.1
                    && partition(front.push(next)) == partition(front).update(
                    at,
                    (next.1, partition(front)[at].1.push(next.0)),
                );
            lemma_words_after_push(partition(front), at, next.0);
        } else {
            assert(partition(front).push((next.1, seq![next.0])).drop_last() =~= partition(front));
        }
    }
}

/// No words make the empty multiset.
proof fn lemma_no_words()
    ensures
        Seq::<Seq<char>>::empty().to_multiset() == Multiset::<Seq<char>>::empty(),
{
    let none = Seq::<Seq<char>>::empty();
    none.to_multiset_ensures();
    vstd::multiset::lemma_multiset_empty_len(none.to_multiset());
    assert(none.to_multiset() =~= Multiset::<Seq<char>>::empty());
}

/// The buckets of a partition hold the words of the pool, each as often as the pool
/// has it.
pub proof fn lemma_partition_keeps_words(graded: Seq<(Seq<char>, nat)>)
    ensures
        all_words(partition(graded)) == words_of(graded).to_multiset(),
    decreases graded.len(),
{
    broadcast use vstd::seq_lib::to_multiset_build;

    lemma_no_words();
    if graded.len() == 0 {
        assert(partition(graded) =~= Seq::empty());
        assert(words_of(graded) =~= Seq::empty());
        assert(all_words(partition(graded)) =~= words_of(graded).to_multiset());
    } else {
        let front = graded.drop_last();
        let next = graded.last();
        assert(front.push(next) =~= graded);
        assert(words_of(graded) =~= words_of(front).push(next.0));
        lemma_partition_keeps_words(front);
        lemma_partition_push(front, next);
        if grades_seen(front).contains(next.1) {
            let at = choose|at: int|
                0 <= at < partition(front).len() && (#[trigger] partition(front)[at]).0 == next.1
                    && partition(front.push(next)) == partition(front).update(
                    at,
                    (next.1, partition(front)[at].1.push(next.0)),
                );
            lemma_words_after_push(partition(front), at, next.0);
        } else {
            assert(partition(front).push((next.1, seq![next.0])).drop_last() =~= partition(front));
            assert(seq![next.0] =~= Seq::<Seq<char>>::empty().push(next.0));
            assert(seq![next.0].to_multiset() =~= Multiset::<Seq<char>>::empty().insert(next.0));
            assert(all_words(partition(graded)) =~= all_words(partition(front)).insert(next.0));
        }
    }
}

/// A partition is exhaustive and disjoint: every word of the pool is in the bucket
/// of its grade, no two buckets have one grade, no bucket is empty, and the buckets
/// together hold the words of the pool, each as often as the pool has it.
pub proof fn lemma_partition_is_exhaustive_and_disjoint(graded: Seq<(Seq<char>, nat)>)
    ensures
        forall|k: int|
            0 <= k < graded.len() ==> exists|i: int|
                0 <= i < partition(graded).len() && (#[trigger] partition(graded)[i]).0
                    == (#[trigger] graded[k]).1,
        forall|i: int, j: int|
            0 <= i < j < partition(graded).len() ==> (#[trigger] partition(graded)[i]).0
                != (#[trigger] partition(graded)[j]).0,
        forall|i: int|
            0 <= i < partition(graded).len() ==> (#[trigger] partition(graded)[i]).1
                == words_graded(graded, partition(graded)[i].0) && partition(graded)[i].1.len()
                > 0,
        total_words(partition(graded)) == graded.len(),
        all_words(partition(graded)) == words_of(graded).to_multiset(),
{
    let buckets = partition(graded);
    let seen = grades_seen(graded);
    lemma_grades_seen_distinct(graded);
    lemma_partition_keeps_count(graded);
    lemma_partition_keeps_words(graded);
    assert forall|k: int| 0 <= k < graded.len() implies exists|i: int|
        0 <= i < buckets.len() && (#[trigger] buckets[i]).0 == (#[trigger] graded[k]).1 by {
        lemma_grades_seen_complete(graded, graded[k].1);
        let i = choose|i: int| 0 <= i < seen.len() && seen[i] == graded[k].1;
        assert(buckets[i].0 == graded[k].1);
    }
    assert forall|i: int| 0 <= i < buckets.len() implies (#[trigger] buckets[i]).1
        == words_graded(graded, buckets[i].0) && buckets[i].1.len() > 0 by {
        assert(seen.contains(seen[i]));
        lemma_bucket_not_empty(graded, seen[i]);
    }
}

} // verus!
