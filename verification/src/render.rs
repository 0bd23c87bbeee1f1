//! The text of the two listings that every run produces: the simplified paths
//! and the partitions with their member nodes.
use vstd::prelude::*;
use crate::graph::is_root;
use crate::indexer::NodeIndexer;
use crate::io::{Genome, SignedId, FILTERED};
use crate::text::{decimal, push_bytes, push_decimal, push_string, string_bytes};

verus! {

/// Every bundle names each of its paths.
pub open spec fn paths_named(genomes: Seq<Genome>) -> bool {
    forall|g: int|
        0 <= g < genomes.len() ==> (#[trigger] genomes[g]).bundle.path_names@.len()
            == genomes[g].bundle.paths@.len()
}

/// An element of a simplified path: the number of its partition, counted from
/// one, followed by its orientation sign.
pub open spec fn element_text(el: SignedId) -> Seq<u8> {
    decimal((el.id + 1) as nat).push(
        if el.plus {
            43u8
        } else {
            45u8
        },
    )
}

/// The elements of a path that are representatives, separated by commas.
pub open spec fn elements_text(path: Seq<SignedId>, node_to_part: Seq<usize>) -> Seq<u8>
    decreases path.len(),
{
    if path.len() == 0 {
        Seq::empty()
    } else {
        let before = elements_text(path.drop_last(), node_to_part);
        if is_root(node_to_part, path.last().id as int) {
            if before.len() > 0 {
                before.push(44u8) + element_text(path.last())
            } else {
                element_text(path.last())
            }
        } else {
            before
        }
    }
}

/// The two lines of one path: `>`, the genome, `#` and the path name; then
/// the elements.
pub open spec fn path_text(genome: Genome, p: int, node_to_part: Seq<usize>) -> Seq<u8> {
    seq![62u8] + string_bytes(genome.name) + seq![35u8] + string_bytes(genome.bundle.path_names@[p])
        + seq![10u8] + elements_text(genome.bundle.paths@[p]@, node_to_part) + seq![10u8]
}

/// The lines of the first `upto` paths of a genome.
pub open spec fn genome_text(genome: Genome, upto: int, node_to_part: Seq<usize>) -> Seq<u8>
    decreases upto,
{
    if upto <= 0 {
        Seq::empty()
    } else {
        genome_text(genome, upto - 1, node_to_part) + path_text(genome, upto - 1, node_to_part)
    }
}

/// The simplified path listing of the first `upto` genomes.
pub open spec fn paths_text(genomes: Seq<Genome>, upto: int, node_to_part: Seq<usize>) -> Seq<u8>
    decreases upto,
{
    if upto <= 0 {
        Seq::empty()
    } else {
        paths_text(genomes, upto - 1, node_to_part) + genome_text(
            genomes[upto - 1],
            genomes[upto - 1].bundle.paths@.len() as int,
            node_to_part,
        )
    }
}

/// Appends the representatives of a path, separated by commas.
fn push_elements(out: &mut Vec<u8>, path: &Vec<SignedId>, node_to_part: &[usize])
    requires
        forall|k: int| 0 <= k < path@.len() ==> (#[trigger] path@[k]).id < node_to_part@.len(),
    ensures
        final(out)@ == old(out)@ + elements_text(path@, node_to_part@),
{
    let ghost start = out@;
    let mut print_comma = false;
    let mut k: usize = 0;
    assert(path@.take(0) =~= Seq::empty());
    assert(out@ =~= start + Seq::empty());
    while k < path.len()
        invariant
            k <= path.len(),
            forall|j: int| 0 <= j < path@.len() ==> (#[trigger] path@[j]).id < node_to_part@.len(),
            out@ == start + elements_text(path@.take(k as int), node_to_part@),
            print_comma == (elements_text(path@.take(k as int), node_to_part@).len() > 0),
        decreases path.len() - k,
    {
        let el = path[k];
        let ghost before = elements_text(path@.take(k as int), node_to_part@);
        proof {
            assert(path@.take(k + 1).drop_last() =~= path@.take(k as int));
            assert(path@.take(k + 1).last() == el);
        }
        if node_to_part[el.id] == el.id {
            if print_comma {
                out.push(44);
            }
            print_comma = true;
            push_decimal(out, el.id + 1);
            out.push(if el.plus { 43 } else { 45 });
            proof {
                assert(out@ =~= start + elements_text(path@.take(k + 1), node_to_part@));
            }
        }
        k += 1;
    }
    assert(path@.take(k as int) =~= path@);
}

/// The simplified path listing: for every path, its genome and name, and on
/// the next line the partitions of its elements that are representatives, each
/// with the orientation of the element.
pub fn write_paths(genomes: &Vec<Genome>, node_to_part: &[usize]) -> (out: Vec<u8>)
    requires
        paths_named(genomes@),
        forall|g: int, p: int, k: int|
            0 <= g < genomes@.len() && 0 <= p < genomes@[g].bundle.paths@.len() && 0 <= k
                < genomes@[g].bundle.paths@[p]@.len() ==> (#[trigger] genomes@[g].bundle.paths@[p]@[k]).id
                < node_to_part@.len(),
    ensures
        out@ == paths_text(genomes@, genomes@.len() as int, node_to_part@),
{
    let mut out: Vec<u8> = Vec::new();
    let mut g: usize = 0;
    while g < genomes.len()
        invariant
            g <= genomes.len(),
            paths_named(genomes@),
            forall|g: int, p: int, k: int|
                0 <= g < genomes@.len() && 0 <= p < genomes@[g].bundle.paths@.len() && 0 <= k
                    < genomes@[g].bundle.paths@[p]@.len() ==> (
                #[trigger] genomes@[g].bundle.paths@[p]@[k]).id < node_to_part@.len(),
            out@ == paths_text(genomes@, g as int, node_to_part@),
        decreases genomes.len() - g,
    {
        let genome = &genomes[g];
        let ghost start = out@;
        let mut p: usize = 0;
        assert(out@ =~= start + genome_text(*genome, 0, node_to_part@));
        while p < genome.bundle.paths.len()
            invariant
                p <= genome.bundle.paths.len(),
                g < genomes.len(),
                genome == genomes@[g as int],
                genome.bundle.path_names@.len() == genome.bundle.paths@.len(),
                forall|g: int, p: int, k: int|
                    0 <= g < genomes@.len() && 0 <= p < genomes@[g].bundle.paths@.len() && 0 <= k
                        < genomes@[g].bundle.paths@[p]@.len() ==> (
                    #[trigger] genomes@[g].bundle.paths@[p]@[k]).id < node_to_part@.len(),
                out@ == start + genome_text(*genome, p as int, node_to_part@),
            decreases genome.bundle.paths.len() - p,
        {
            let ghost line_start = out@;
            out.push(62);
            push_string(&mut out, &genome.name);
            out.push(35);
            push_string(&mut out, &genome.bundle.path_names[p]);
            out.push(10);
            proof {
                assert forall|k: int| 0 <= k < genome.bundle.paths@[p as int]@.len() implies (
                #[trigger] genome.bundle.paths@[p as int]@[k]).id < node_to_part@.len() by {
                    assert(genomes@[g as int].bundle.paths@[p as int]@[k].id < node_to_part@.len());
                }
            }
            push_elements(&mut out, &genome.bundle.paths[p], node_to_part);
            out.push(10);
            proof {
                assert(out@ =~= line_start + path_text(*genome, p as int, node_to_part@));
                assert(out@ =~= start + genome_text(*genome, p + 1, node_to_part@));
            }
            p += 1;
        }
        g += 1;
    }
    out
}

/// The name under which a node is listed: the name that the input gave it,
/// or, where the input has no names, its number counted from one.
pub open spec fn node_name(indexer: Option<NodeIndexer>, id: int) -> Seq<u8> {
    match indexer {
        Some(ix) => if 0 <= id < ix.names@.len() {
            ix.names@[id]@
        } else {
            Seq::empty()
        },
        None => decimal((id + 1) as nat),
    }
}

/// The nodes below `upto` that point at `part`, in increasing order.
pub open spec fn members(node_to_part: Seq<usize>, upto: int, part: int) -> Seq<usize>
    decreases upto,
{
    if upto <= 0 {
        Seq::empty()
    } else {
        let before = members(node_to_part, upto - 1, part);
        if node_to_part[upto - 1] == part {
            before.push((upto - 1) as usize)
        } else {
            before
        }
    }
}

/// The names of the first `upto` of the nodes `m`, each after a blank.
pub open spec fn members_text(m: Seq<usize>, upto: int, indexer: Option<NodeIndexer>) -> Seq<u8>
    decreases upto,
{
    if upto <= 0 {
        Seq::empty()
    } else {
        members_text(m, upto - 1, indexer) + seq![32u8] + node_name(indexer, m[upto - 1] as int)
    }
}

/// The line of one partition: the name of its representative, a colon, and
/// the names of its members. A node that nothing points at has no line.
pub open spec fn partition_line(
    node_to_part: Seq<usize>,
    num_nodes: int,
    part: int,
    indexer: Option<NodeIndexer>,
) -> Seq<u8> {
    let m = members(node_to_part, num_nodes, part);
    if m.len() == 0 {
        Seq::empty()
    } else {
        node_name(indexer, part) + seq![58u8] + members_text(m, m.len() as int, indexer) + seq![10u8]
    }
}

/// The partition listing of the representatives below `upto`.
pub open spec fn partitions_text(
    node_to_part: Seq<usize>,
    num_nodes: int,
    upto: int,
    indexer: Option<NodeIndexer>,
) -> Seq<u8>
    decreases upto,
{
    if upto <= 0 {
        Seq::empty()
    } else {
        partitions_text(node_to_part, num_nodes, upto - 1, indexer) + partition_line(
            node_to_part,
            num_nodes,
            upto - 1,
            indexer,
        )
    }
}

/// Appends the name of node `id`.
fn push_node_name(out: &mut Vec<u8>, node_indexer: &Option<NodeIndexer>, id: usize)
    requires
        id < usize::MAX,
    ensures
        final(out)@ == old(out)@ + node_name(*node_indexer, id as int),
{
    match node_indexer {
        Some(ix) => {
            if id < ix.names.len() {
                push_bytes(out, ix.names[id].as_slice());
            } else {
                assert(out@ =~= old(out)@ + Seq::<u8>::empty());
            }
        },
        None => {
            push_decimal(out, id + 1);
        },
    }
}

/// The partition listing: one line for every partition, with the name of its
/// representative and the names of all nodes merged into it, itself included.
pub fn write_partition(
    num_nodes: usize,
    node_to_part: &[usize],
    node_indexer: &Option<NodeIndexer>,
) -> (out: Vec<u8>)
    requires
        num_nodes <= node_to_part@.len(),
        num_nodes < usize::MAX,
    ensures
        out@ == partitions_text(node_to_part@, num_nodes as int, num_nodes as int, *node_indexer),
{
    let mut partition: Vec<Vec<usize>> = Vec::new();
    let mut t: usize = 0;
    while t < num_nodes
        invariant
            t <= num_nodes,
            partition@.len() == t,
            forall|p: int| 0 <= p < t ==> (#[trigger] partition@[p])@ == Seq::<usize>::empty(),
        decreases num_nodes - t,
    {
        partition.push(Vec::new());
        t += 1;
    }
    let mut id: usize = 0;
    while id < num_nodes
        invariant
            id <= num_nodes,
            num_nodes <= node_to_part@.len(),
            num_nodes < usize::MAX,
            partition@.len() == num_nodes,
            forall|p: int|
                0 <= p < num_nodes ==> (#[trigger] partition@[p])@ == members(
                    node_to_part@,
                    id as int,
                    p,
                ),
            forall|p: int, k: int|
                0 <= p < num_nodes && 0 <= k < partition@[p]@.len() ==> (#[trigger] partition@[p]@[k])
                    < id,
        decreases num_nodes - id,
    {
        let part = node_to_part[id];
        let ghost lists = partition@;
        if part != FILTERED && part < num_nodes {
            partition[part].push(id);
        }
        proof {
            assert forall|p: int| 0 <= p < num_nodes implies (#[trigger] partition@[p])@ == members(
                node_to_part@,
                id + 1,
                p,
            ) by {
                assert(lists[p]@ == members(node_to_part@, id as int, p));
                if part != FILTERED && part < num_nodes {
                    if p != part {
                        assert(partition@[p] == lists[p]);
                    } else {
                        assert(partition@[p]@ == lists[p]@.push(id));
                    }
                } else {
                    assert(partition@[p] == lists[p]);
                    assert(node_to_part@[id as int] != p);
                }
            }
            assert forall|p: int, k: int|
                0 <= p < num_nodes && 0 <= k < partition@[p]@.len() implies (
            #[trigger] partition@[p]@[k]) <= id by {
                if k < lists[p]@.len() {
                    assert(partition@[p]@[k] == lists[p]@[k]);
                }
            }
        }
        id += 1;
    }
    let mut out: Vec<u8> = Vec::new();
    let mut core_id: usize = 0;
    while core_id < num_nodes
        invariant
            core_id <= num_nodes,
            num_nodes < usize::MAX,
            partition@.len() == num_nodes,
            forall|p: int|
                0 <= p < num_nodes ==> (#[trigger] partition@[p])@ == members(
                    node_to_part@,
                    num_nodes as int,
                    p,
                ),
            forall|p: int, k: int|
                0 <= p < num_nodes && 0 <= k < partition@[p]@.len() ==> (#[trigger] partition@[p]@[k])
                    < num_nodes,
            out@ == partitions_text(node_to_part@, num_nodes as int, core_id as int, *node_indexer),
        decreases num_nodes - core_id,
    {
        let ghost start = out@;
        let part = &partition[core_id];
        if part.len() > 0 {
            push_node_name(&mut out, node_indexer, core_id);
            out.push(58);
            let ghost head = out@;
            let mut k: usize = 0;
            assert(out@ =~= head + members_text(part@, 0, *node_indexer));
            while k < part.len()
                invariant
                    k <= part.len(),
                    num_nodes < usize::MAX,
                    forall|j: int| 0 <= j < part@.len() ==> (#[trigger] part@[j]) < num_nodes,
                    out@ == head + members_text(part@, k as int, *node_indexer),
                decreases part.len() - k,
            {
                let ghost before = out@;
                out.push(32);
                push_node_name(&mut out, node_indexer, part[k]);
                proof {
                    assert(out@ =~= head + members_text(part@, k + 1, *node_indexer));
                }
                k += 1;
            }
            out.push(10);
            proof {
                assert(out@ =~= start + partition_line(
                    node_to_part@,
                    num_nodes as int,
                    core_id as int,
                    *node_indexer,
                ));
            }
        } else {
            proof {
                assert(out@ =~= start + partition_line(
                    node_to_part@,
                    num_nodes as int,
                    core_id as int,
                    *node_indexer,
                ));
            }
        }
        core_id += 1;
    }
    out
}

} // verus!
