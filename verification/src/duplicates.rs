//! Classification of the nodes that recur within a genome: which of them are
//! kept as partitions of their own, and which are removed from the output.
use std::collections::HashMap;
use std::collections::HashSet;
use vstd::prelude::*;
use crate::io::{bundle_paths, Genome, Path, SignedId};

verus! {

/// How often node `id` occurs in a path.
pub open spec fn occurrences_in_path(path: Seq<SignedId>, id: usize) -> nat {
    path.filter(|el: SignedId| el.id == id).len()
}

/// How often node `id` occurs in a collection of paths.
pub open spec fn occurrences(paths: Seq<Seq<SignedId>>, id: usize) -> nat
    decreases paths.len(),
{
    if paths.len() == 0 {
        0
    } else {
        occurrences(paths.drop_last(), id) + occurrences_in_path(paths.last(), id)
    }
}

/// The largest number of occurrences of node `id` within one genome.
pub open spec fn max_occurrences(genomes: Seq<Genome>, id: usize) -> nat
    decreases genomes.len(),
{
    if genomes.len() == 0 {
        0
    } else {
        let before = max_occurrences(genomes.drop_last(), id);
        let here = occurrences(bundle_paths(genomes.last().bundle), id);
        if here > before {
            here
        } else {
            before
        }
    }
}

/// The nodes that are removed from the output: with a threshold of three or
/// more, those that occur at least that often within some genome.
pub open spec fn filtered_duplicates(genomes: Seq<Genome>, remove_duplicates: usize) -> Set<usize> {
    Set::new(
        |id: usize| remove_duplicates >= 3 && max_occurrences(genomes, id) >= remove_duplicates,
    )
}

/// The nodes that are kept but never merged: with a threshold of two or more,
/// those that occur more than once within some genome and are not removed.
pub open spec fn kept_duplicates(genomes: Seq<Genome>, remove_duplicates: usize) -> Set<usize> {
    Set::new(
        |id: usize|
            remove_duplicates >= 2 && max_occurrences(genomes, id) >= 2 && !filtered_duplicates(
                genomes,
                remove_duplicates,
            ).contains(id),
    )
}

/// The nodes protected from merging in a run: the kept duplicates, and none
/// at all where `dirty` switches the classification off.
pub open spec fn protected_nodes(genomes: Seq<Genome>, remove_duplicates: usize, dirty: bool) -> Set<
    usize,
> {
    if dirty {
        Set::empty()
    } else {
        kept_duplicates(genomes, remove_duplicates)
    }
}

/// The nodes removed before a run: the filtered duplicates, and none at all
/// where `dirty` switches the classification off.
pub open spec fn removed_nodes(genomes: Seq<Genome>, remove_duplicates: usize, dirty: bool) -> Set<
    usize,
> {
    if dirty {
        Set::empty()
    } else {
        filtered_duplicates(genomes, remove_duplicates)
    }
}

/// The count that a map holds for `id`; an absent key counts as zero.
pub open spec fn counted(count: Map<usize, usize>, id: usize) -> nat {
    if count.contains_key(id) {
        count[id] as nat
    } else {
        0
    }
}

/// A count as a machine word holds it: large counts stop at the largest word.
pub open spec fn capped(n: nat) -> nat {
    if n > usize::MAX {
        usize::MAX as nat
    } else {
        n
    }
}

/// The occurrences of `id` in genome `g` before element `k` of its path `p`.
pub open spec fn seen(genomes: Seq<Genome>, g: int, p: int, k: int, id: usize) -> nat {
    occurrences(bundle_paths(genomes[g].bundle).take(p), id) + occurrences_in_path(
        genomes[g].bundle.paths@[p]@.take(k),
        id,
    )
}

/// The larger of the most occurrences of `id` within one of the first `g`
/// genomes and `here`.
pub open spec fn most(genomes: Seq<Genome>, g: int, here: nat, id: usize) -> nat {
    if here > max_occurrences(genomes.take(g), id) {
        here
    } else {
        max_occurrences(genomes.take(g), id)
    }
}

/// One more element adds one occurrence of its node and none of any other.
pub proof fn lemma_occurrences_in_path_step(path: Seq<SignedId>, k: int, id: usize)
    requires
        0 <= k < path.len(),
    ensures
        occurrences_in_path(path.take(k + 1), id) == occurrences_in_path(path.take(k), id) + if path[k].id
            == id {
            1nat
        } else {
            0nat
        },
        occurrences_in_path(path.take(0), id) == 0,
{
    let pred = |el: SignedId| el.id == id;
    assert(path.take(k + 1) =~= path.take(k).push(path[k]));
    path.take(k).lemma_filter_push(path[k], pred);
    lemma_occurrences_in_path_none(path, id);
}

/// Nothing occurs in the empty beginning of a path.
pub proof fn lemma_occurrences_in_path_none(path: Seq<SignedId>, id: usize)
    ensures
        occurrences_in_path(path.take(0), id) == 0,
{
    let pred = |el: SignedId| el.id == id;
    path.take(0).lemma_filter_len(pred);
}

/// One more path adds its occurrences.
pub proof fn lemma_occurrences_step(paths: Seq<Seq<SignedId>>, p: int, id: usize)
    requires
        0 <= p < paths.len(),
    ensures
        occurrences(paths.take(p + 1), id) == occurrences(paths.take(p), id) + occurrences_in_path(
            paths[p],
            id,
        ),
{
    assert(paths.take(p + 1).drop_last() =~= paths.take(p));
}

/// One more genome raises the largest number of occurrences to its own, if
/// that is larger.
pub proof fn lemma_max_occurrences_step(genomes: Seq<Genome>, g: int, id: usize)
    requires
        0 <= g < genomes.len(),
    ensures
        max_occurrences(genomes.take(g + 1), id) == most(
            genomes,
            g,
            occurrences(bundle_paths(genomes[g].bundle), id),
            id,
        ),
{
    assert(genomes.take(g + 1).drop_last() =~= genomes.take(g));
}

/// What a scan has established when it stands before element `k` of path `p`
/// of genome `g`: `count` holds the occurrences within the genome so far, and
/// the two sets hold the nodes that have reached two occurrences and the
/// threshold.
pub open spec fn scanned(
    genomes: Seq<Genome>,
    g: int,
    p: int,
    k: int,
    remove_duplicates: usize,
    count: Map<usize, usize>,
    repeated: Set<usize>,
    to_filter: Set<usize>,
) -> bool {
    &&& forall|id: usize| #[trigger] counted(count, id) == capped(seen(genomes, g, p, k, id))
    &&& repeated =~= Set::new(|id: usize| most(genomes, g, seen(genomes, g, p, k, id), id) >= 2)
    &&& to_filter =~= Set::new(
        |id: usize|
            remove_duplicates >= 3 && most(genomes, g, seen(genomes, g, p, k, id), id)
                >= remove_duplicates,
    )
}

/// What the second pass has established at the same position: `duplicates`
/// holds the nodes met so far that recur and are not removed.
pub open spec fn thinned(
    genomes: Seq<Genome>,
    g: int,
    p: int,
    k: int,
    repeated: Set<usize>,
    to_filter: Set<usize>,
    duplicates: Set<usize>,
) -> bool {
    duplicates =~= Set::new(
        |id: usize|
            repeated.contains(id) && !to_filter.contains(id) && most(
                genomes,
                g,
                seen(genomes, g, p, k, id),
                id,
            ) >= 1,
    )
}

/// Counts the elements of one path and records the nodes that reach two
/// occurrences, or the threshold, within their genome.
fn scan_path(
    genomes: &Vec<Genome>,
    gi: usize,
    pi: usize,
    remove_duplicates: usize,
    count: &mut HashMap<usize, usize>,
    repeated: &mut HashSet<usize>,
    to_filter: &mut HashSet<usize>,
)
    requires
        gi < genomes@.len(),
        pi < genomes@[gi as int].bundle.paths@.len(),
        remove_duplicates >= 2,
        scanned(
            genomes@,
            gi as int,
            pi as int,
            0,
            remove_duplicates,
            old(count)@,
            old(repeated)@,
            old(to_filter)@,
        ),
    ensures
        scanned(
            genomes@,
            gi as int,
            pi + 1,
            0,
            remove_duplicates,
            final(count)@,
            final(repeated)@,
            final(to_filter)@,
        ),
{
    broadcast use vstd::std_specs::hash::group_hash_axioms;

    let path: &Path = &genomes[gi].bundle.paths[pi];
    let mut k: usize = 0;
    while k < path.len()
        invariant
            k <= path.len(),
            gi < genomes@.len(),
            pi < genomes@[gi as int].bundle.paths@.len(),
            path == genomes@[gi as int].bundle.paths@[pi as int],
            remove_duplicates >= 2,
            scanned(
                genomes@,
                gi as int,
                pi as int,
                k as int,
                remove_duplicates,
                count@,
                repeated@,
                to_filter@,
            ),
        decreases path.len() - k,
    {
        let id = path[k].id;
        let before = match count.get(&id) {
            Some(c) => *c,
            None => 0,
        };
        let now = if before < usize::MAX {
            before + 1
        } else {
            before
        };
        let ghost count0 = count@;
        proof {
            assert(before == counted(count0, id));
            assert forall|other: usize|
                seen(genomes@, gi as int, pi as int, k + 1, other) == seen(
                    genomes@,
                    gi as int,
                    pi as int,
                    k as int,
                    other,
                ) + if other == id {
                    1nat
                } else {
                    0nat
                } by {
                lemma_occurrences_in_path_step(path@, k as int, other);
            }
        }
        count.insert(id, now);
        if now >= 2 {
            repeated.insert(id);
            if remove_duplicates >= 3 && now >= remove_duplicates {
                to_filter.insert(id);
            }
        }
        proof {
            assert forall|other: usize| #[trigger]
                counted(count@, other) == capped(
                    seen(genomes@, gi as int, pi as int, k + 1, other),
                ) by {
                assert(counted(count0, other) == capped(
                    seen(genomes@, gi as int, pi as int, k as int, other),
                ));
            }
        }
        k += 1;
    }
    proof {
        assert forall|id: usize|
            seen(genomes@, gi as int, pi + 1, 0, id) == seen(
                genomes@,
                gi as int,
                pi as int,
                k as int,
                id,
            ) by {
            assert(path@.take(k as int) =~= path@);
            lemma_occurrences_step(bundle_paths(genomes@[gi as int].bundle), pi as int, id);
            lemma_occurrences_in_path_none(genomes@[gi as int].bundle.paths@[pi + 1]@, id);
        }
    }
}

/// Adds to `duplicates` the nodes of one path that recur and are not removed.
fn keep_path(
    genomes: &Vec<Genome>,
    gi: usize,
    pi: usize,
    repeated: &HashSet<usize>,
    to_filter: &HashSet<usize>,
    duplicates: &mut HashSet<usize>,
)
    requires
        gi < genomes@.len(),
        pi < genomes@[gi as int].bundle.paths@.len(),
        thinned(genomes@, gi as int, pi as int, 0, repeated@, to_filter@, old(duplicates)@),
    ensures
        thinned(genomes@, gi as int, pi + 1, 0, repeated@, to_filter@, final(duplicates)@),
{
    broadcast use vstd::std_specs::hash::group_hash_axioms;

    let path: &Path = &genomes[gi].bundle.paths[pi];
    let mut k: usize = 0;
    while k < path.len()
        invariant
            k <= path.len(),
            gi < genomes@.len(),
            pi < genomes@[gi as int].bundle.paths@.len(),
            path == genomes@[gi as int].bundle.paths@[pi as int],
            thinned(genomes@, gi as int, pi as int, k as int, repeated@, to_filter@, duplicates@),
        decreases path.len() - k,
    {
        let id = path[k].id;
        proof {
            assert forall|other: usize|
                seen(genomes@, gi as int, pi as int, k + 1, other) == seen(
                    genomes@,
                    gi as int,
                    pi as int,
                    k as int,
                    other,
                ) + if other == id {
                    1nat
                } else {
                    0nat
                } by {
                lemma_occurrences_in_path_step(path@, k as int, other);
            }
        }
        if repeated.contains(&id) && !to_filter.contains(&id) {
            duplicates.insert(id);
        }
        k += 1;
    }
    proof {
        assert forall|id: usize|
            seen(genomes@, gi as int, pi + 1, 0, id) == seen(
                genomes@,
                gi as int,
                pi as int,
                k as int,
                id,
            ) by {
            assert(path@.take(k as int) =~= path@);
            lemma_occurrences_step(bundle_paths(genomes@[gi as int].bundle), pi as int, id);
            lemma_occurrences_in_path_none(genomes@[gi as int].bundle.paths@[pi + 1]@, id);
        }
    }
}

/// The occurrences seen at the end of a genome are all of its occurrences, and
/// none are seen at the start of the next.
proof fn lemma_seen_bounds(genomes: Seq<Genome>, g: int, id: usize)
    requires
        0 <= g < genomes.len(),
    ensures
        seen(genomes, g, 0, 0, id) == 0,
        seen(genomes, g, genomes[g].bundle.paths@.len() as int, 0, id) == occurrences(
            bundle_paths(genomes[g].bundle),
            id,
        ),
        most(genomes, g, 0, id) == max_occurrences(genomes.take(g), id),
        most(genomes, g, occurrences(bundle_paths(genomes[g].bundle), id), id) == max_occurrences(
            genomes.take(g + 1),
            id,
        ),
{
    let bp = bundle_paths(genomes[g].bundle);
    assert(bp.take(bp.len() as int) =~= bp);
    assert(bp.take(0) =~= Seq::empty());
    lemma_occurrences_in_path_none(genomes[g].bundle.paths@[0]@, id);
    lemma_occurrences_in_path_none(genomes[g].bundle.paths@[bp.len() as int]@, id);
    lemma_max_occurrences_step(genomes, g, id);
}

/// Classifies the nodes that recur within a genome.
///
/// With `remove_duplicates` at zero no node is set apart. At two, every node
/// that occurs more than once within some genome is kept but never merged.
/// From three on, a node whose occurrences within some genome reach the
/// threshold is removed, and one that recurs below it is kept but never
/// merged. The first set holds the kept nodes, the second the removed ones.
pub fn get_genome_duplicates(genomes: &Vec<Genome>, remove_duplicates: usize) -> (sets: (
    HashSet<usize>,
    HashSet<usize>,
))
    requires
        remove_duplicates != 1,
    ensures
        sets.0@ == kept_duplicates(genomes@, remove_duplicates),
        sets.1@ == filtered_duplicates(genomes@, remove_duplicates),
        sets.0@.disjoint(sets.1@),
        remove_duplicates == 0 ==> sets.0@ == Set::<usize>::empty() && sets.1@ == Set::<usize>::empty(),
{
    broadcast use vstd::std_specs::hash::group_hash_axioms;

    let mut repeated: HashSet<usize> = HashSet::new();
    let mut to_filter: HashSet<usize> = HashSet::new();
    let mut duplicates: HashSet<usize> = HashSet::new();
    if remove_duplicates == 0 {
        proof {
            assert(duplicates@ =~= kept_duplicates(genomes@, remove_duplicates));
            assert(to_filter@ =~= filtered_duplicates(genomes@, remove_duplicates));
        }
        return (duplicates, to_filter);
    }
    proof {
        assert(genomes@.take(0) =~= Seq::empty());
    }
    let mut gi: usize = 0;
    while gi < genomes.len()
        invariant
            gi <= genomes.len(),
            remove_duplicates >= 2,
            repeated@ =~= Set::new(|id: usize| max_occurrences(genomes@.take(gi as int), id) >= 2),
            to_filter@ =~= Set::new(
                |id: usize|
                    remove_duplicates >= 3 && max_occurrences(genomes@.take(gi as int), id)
                        >= remove_duplicates,
            ),
        decreases genomes.len() - gi,
    {
        let mut count: HashMap<usize, usize> = HashMap::new();
        proof {
            assert forall|id: usize|
                seen(genomes@, gi as int, 0, 0, id) == 0 && most(genomes@, gi as int, 0, id)
                    == max_occurrences(genomes@.take(gi as int), id) by {
                lemma_seen_bounds(genomes@, gi as int, id);
            }
        }
        let mut pi: usize = 0;
        while pi < genomes[gi].bundle.paths.len()
            invariant
                gi < genomes.len(),
                pi <= genomes@[gi as int].bundle.paths@.len(),
                remove_duplicates >= 2,
                scanned(
                    genomes@,
                    gi as int,
                    pi as int,
                    0,
                    remove_duplicates,
                    count@,
                    repeated@,
                    to_filter@,
                ),
            decreases genomes@[gi as int].bundle.paths@.len() - pi,
        {
            scan_path(genomes, gi, pi, remove_duplicates, &mut count, &mut repeated, &mut to_filter);
            pi += 1;
        }
        proof {
            assert forall|id: usize|
                most(genomes@, gi as int, seen(genomes@, gi as int, pi as int, 0, id), id)
                    == max_occurrences(genomes@.take(gi + 1), id) by {
                lemma_seen_bounds(genomes@, gi as int, id);
            }
        }
        gi += 1;
    }
    proof {
        assert(genomes@.take(gi as int) =~= genomes@);
        assert(genomes@.take(0) =~= Seq::empty());
    }
    let mut gi: usize = 0;
    while gi < genomes.len()
        invariant
            gi <= genomes.len(),
            remove_duplicates >= 2,
            repeated@ =~= Set::new(|id: usize| max_occurrences(genomes@, id) >= 2),
            to_filter@ =~= filtered_duplicates(genomes@, remove_duplicates),
            duplicates@ =~= Set::new(
                |id: usize|
                    repeated@.contains(id) && !to_filter@.contains(id) && max_occurrences(
                        genomes@.take(gi as int),
                        id,
                    ) >= 1,
            ),
        decreases genomes.len() - gi,
    {
        proof {
            assert forall|id: usize|
                seen(genomes@, gi as int, 0, 0, id) == 0 && most(genomes@, gi as int, 0, id)
                    == max_occurrences(genomes@.take(gi as int), id) by {
                lemma_seen_bounds(genomes@, gi as int, id);
            }
        }
        let mut pi: usize = 0;
        while pi < genomes[gi].bundle.paths.len()
            invariant
                gi < genomes.len(),
                pi <= genomes@[gi as int].bundle.paths@.len(),
                thinned(genomes@, gi as int, pi as int, 0, repeated@, to_filter@, duplicates@),
            decreases genomes@[gi as int].bundle.paths@.len() - pi,
        {
            keep_path(genomes, gi, pi, &repeated, &to_filter, &mut duplicates);
            pi += 1;
        }
        proof {
            assert forall|id: usize|
                most(genomes@, gi as int, seen(genomes@, gi as int, pi as int, 0, id), id)
                    == max_occurrences(genomes@.take(gi + 1), id) by {
                lemma_seen_bounds(genomes@, gi as int, id);
            }
        }
        gi += 1;
    }
    proof {
        assert(genomes@.take(gi as int) =~= genomes@);
        assert(duplicates@ =~= kept_duplicates(genomes@, remove_duplicates));
    }
    (duplicates, to_filter)
}

} // verus!
