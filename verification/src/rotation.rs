//! The canonical rotation of a cycle: the one that starts at the least name.
use crate::text::{comes_before, precedes, texts};
use vstd::prelude::*;

verus! {

/// The first position of the least name.
pub open spec fn least_position(cycle: Seq<Seq<char>>) -> int
    decreases cycle.len(),
{
    if cycle.len() <= 1 {
        0
    } else {
        let before = least_position(cycle.drop_last());
        if precedes(cycle.last(), cycle[before]) {
            cycle.len() - 1
        } else {
            before
        }
    }
}

/// The cycle as it reads from another of its positions.
pub open spec fn rotate<T>(cycle: Seq<T>, start: int) -> Seq<T> {
    cycle.skip(start) + cycle.take(start)
}

/// Whether one cycle is the other as it reads from one of its positions.
pub open spec fn is_rotation<T>(turned: Seq<T>, cycle: Seq<T>) -> bool {
    exists|start: int| 0 <= start < cycle.len() && turned == #[trigger] rotate(cycle, start)
}

/// The cycle as it reads from its least name.
pub open spec fn canonical(cycle: Seq<Seq<char>>) -> Seq<Seq<char>> {
    rotate(cycle, least_position(cycle))
}

/// Exactly one of two texts comes first, unless they are the same.
pub proof fn lemma_precedes_total(a: Seq<char>, b: Seq<char>)
    ensures
        a == b || precedes(a, b) || precedes(b, a),
        !(precedes(a, b) && precedes(b, a)),
        !precedes(a, a),
    decreases a.len(),
{
    if a.len() > 0 && b.len() > 0 {
        lemma_precedes_total(a.drop_first(), b.drop_first());
        if a[0] == b[0] && a.drop_first() == b.drop_first() {
            assert(a =~= seq![a[0]] + a.drop_first());
        }
    } else if a.len() > 0 {
        lemma_precedes_total(a.drop_first(), a.drop_first());
    }
}

/// The order of texts is transitive.
pub proof fn lemma_precedes_transitive(a: Seq<char>, b: Seq<char>, c: Seq<char>)
    requires
        precedes(a, b),
        precedes(b, c),
    ensures
        precedes(a, c),
    decreases a.len(),
{
    if a.len() > 0 && a[0] == b[0] && b[0] == c[0] {
        lemma_precedes_transitive(a.drop_first(), b.drop_first(), c.drop_first());
    }
}

/// No name of the cycle comes before the one at the least position, and every name in front of
/// that position comes behind it.
pub proof fn lemma_least_position(cycle: Seq<Seq<char>>)
    requires
        cycle.len() > 0,
    ensures
        0 <= least_position(cycle) < cycle.len(),
        forall|j: int|
            0 <= j < cycle.len() ==> !precedes(#[trigger] cycle[j], cycle[least_position(cycle)]),
        forall|j: int|
            0 <= j < least_position(cycle) ==> precedes(
                cycle[least_position(cycle)],
                #[trigger] cycle[j],
            ),
    decreases cycle.len(),
{
    if cycle.len() == 1 {
        lemma_precedes_total(cycle[0], cycle[0]);
    } else {
        let shorter = cycle.drop_last();
        lemma_least_position(shorter);
        let before = least_position(shorter);
        let least = least_position(cycle);
        assert forall|j: int| 0 <= j < cycle.len() implies !precedes(
            #[trigger] cycle[j],
            cycle[least],
        ) by {
            lemma_precedes_total(cycle[j], cycle[least]);
            if j < cycle.len() - 1 {
                assert(shorter[j] == cycle[j]);
                if least != before && precedes(cycle[j], cycle[least]) {
                    lemma_precedes_transitive(cycle[j], cycle.last(), cycle[before]);
                }
            }
        }
        assert forall|j: int| 0 <= j < least implies precedes(cycle[least], #[trigger] cycle[j]) by {
            assert(shorter[j] == cycle[j]);
            if least != before {
                lemma_precedes_total(cycle[j], cycle[before]);
                if cycle[j] != cycle[before] {
                    lemma_precedes_transitive(cycle.last(), cycle[before], cycle[j]);
                }
            }
        }
    }
}

/// The position of a least name among distinct names is the least position.
proof fn lemma_least_unique(cycle: Seq<Seq<char>>, at: int)
    requires
        cycle.no_duplicates(),
        0 <= at < cycle.len(),
        forall|j: int| 0 <= j < cycle.len() ==> !precedes(#[trigger] cycle[j], cycle[at]),
    ensures
        least_position(cycle) == at,
{
    lemma_least_position(cycle);
    lemma_precedes_total(cycle[at], cycle[least_position(cycle)]);
}

/// A cycle of distinct names has one canonical form, wherever it is entered.
pub proof fn law_canonical_ignores_rotation(cycle: Seq<Seq<char>>, start: int)
    requires
        cycle.no_duplicates(),
        0 <= start < cycle.len(),
    ensures
        canonical(rotate(cycle, start)) == canonical(cycle),
{
    lemma_least_position(cycle);
    let least = least_position(cycle);
    let turned = rotate(cycle, start);
    let at = if least >= start {
        least - start
    } else {
        least - start + cycle.len()
    };
    lemma_least_unique(turned, at);
}

/// The canonical form of a canonical form is itself.
pub proof fn law_canonical_idempotent(cycle: Seq<Seq<char>>)
    ensures
        canonical(canonical(cycle)) == canonical(cycle),
{
    let turned = canonical(cycle);
    if cycle.len() > 0 {
        lemma_least_position(cycle);
        lemma_least_position(turned);
        let least = least_position(cycle);
        assert(turned[0] == cycle[least]);
    }
}

/// A rotation of a rotation is a rotation.
pub proof fn lemma_rotations_compose<T>(cycle: Seq<T>, first: int, second: int)
    requires
        0 <= first < cycle.len(),
        0 <= second < cycle.len(),
    ensures
        is_rotation(rotate(rotate(cycle, first), second), cycle),
{
    let start = if first + second < cycle.len() {
        first + second
    } else {
        first + second - cycle.len()
    };
    assert(rotate(rotate(cycle, first), second) =~= rotate(cycle, start));
}

/// Cycles that differ by a rotation alone are the only ones with the same canonical form.
pub proof fn law_canonical_is_rotation(a: Seq<Seq<char>>, b: Seq<Seq<char>>)
    requires
        a.len() > 0,
        canonical(a) == canonical(b),
    ensures
        is_rotation(b, a),
{
    let from = least_position(a);
    let to = least_position(b);
    lemma_least_position(a);
    assert(canonical(b).len() == b.len()) by {
        if b.len() > 0 {
            lemma_least_position(b);
        }
    }
    lemma_least_position(b);
    let start = if from >= to {
        from - to
    } else {
        from - to + a.len()
    };
    assert forall|j: int| 0 <= j < b.len() implies #[trigger] b[j] == rotate(a, start)[j] by {
        let at = if j >= to {
            j - to
        } else {
            j - to + b.len()
        };
        assert(canonical(b)[at] == b[j]);
    }
    assert(b =~= rotate(a, start));
}

/// The rotation of a cycle that starts at its least name; of several equal ones, the first.
pub fn canonicalize_cycle(cycle: &[String]) -> (turned: Vec<String>)
    ensures
        texts(turned@) == canonical(texts(cycle@)),
{
    let mut turned: Vec<String> = Vec::new();
    if cycle.len() == 0 {
        return turned;
    }
    let ghost names = texts(cycle@);
    let mut least: usize = 0;
    let mut i: usize = 1;
    while i < cycle.len()
        invariant
            names == texts(cycle@),
            1 <= i <= cycle.len(),
            least < i,
            least == least_position(names.take(i as int)),
        decreases cycle.len() - i,
    {
        assert(names.take(i + 1).drop_last() =~= names.take(i as int));
        if comes_before(cycle[i].as_str(), cycle[least].as_str()) {
            least = i;
        }
        i += 1;
    }
    assert(names.take(i as int) =~= names);
    let mut k: usize = least;
    while k < cycle.len()
        invariant
            names == texts(cycle@),
            least <= k <= cycle.len(),
            texts(turned@) == names.subrange(least as int, k as int),
        decreases cycle.len() - k,
    {
        let ghost before = texts(turned@);
        turned.push(cycle[k].clone());
        assert(texts(turned@) =~= before.push(names[k as int]));
        k += 1;
    }
    k = 0;
    while k < least
        invariant
            names == texts(cycle@),
            k <= least < cycle.len(),
            texts(turned@) == names.skip(least as int) + names.take(k as int),
        decreases least - k,
    {
        let ghost before = texts(turned@);
        turned.push(cycle[k].clone());
        assert(texts(turned@) =~= before.push(names[k as int]));
        k += 1;
    }
    turned
}

/// A cycle read from another position goes on behind its end with its start.
pub proof fn law_rotation_reads_on<T>(cycle: Seq<T>, start: int, i: int)
    requires
        0 <= start < cycle.len(),
        0 <= i < cycle.len(),
    ensures
        rotate(cycle, start).len() == cycle.len(),
        rotate(cycle, start)[i] == cycle[if start + i < cycle.len() {
            start + i
        } else {
            start + i - cycle.len()
        }],
{
}

/// The canonical form is the cycle as it reads from one of its positions, and no name of the cycle
/// comes before the one that it starts with, which is the first of its kind in the cycle.
pub proof fn law_canonical_starts_at_the_least(cycle: Seq<Seq<char>>)
    requires
        cycle.len() > 0,
    ensures
        is_rotation(canonical(cycle), cycle),
        exists|start: int|
            0 <= start < cycle.len() && canonical(cycle) == #[trigger] rotate(cycle, start) && forall|
                j: int,
            |
                0 <= j < start ==> #[trigger] cycle[j] != canonical(cycle)[0],
        forall|i: int|
            0 <= i < cycle.len() ==> !precedes(#[trigger] cycle[i], canonical(cycle)[0]),
{
    lemma_least_position(cycle);
    let start = least_position(cycle);
    assert(canonical(cycle) == rotate(cycle, start));
    assert forall|j: int| 0 <= j < start implies #[trigger] cycle[j] != canonical(cycle)[0] by {
        lemma_precedes_total(cycle[start], cycle[j]);
    }
}

} // verus!
