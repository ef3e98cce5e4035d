//! The presence/absence builder: given a graph's walk records and a set of
//! node ids of interest, tabulates how many times each id occurs across each
//! sample's traversals. Rows are ordered by ascending id and columns by the
//! first appearance of each sample, so the table is deterministic.

use crate::bytes::{dec_to_usize, trim_bytes, trim_spec};
use crate::error::CmdError;
use crate::gfa::{extract_nodes, walk_views, Walk, WalkV};
use vstd::prelude::*;

verus! {

/// The smaller of two naturals.
pub open spec fn min_nat(a: nat, b: nat) -> nat {
    if a <= b {
        a
    } else {
        b
    }
}

/// How many entries of `s` equal `id`.
pub open spec fn count_nodes(s: Seq<nat>, id: nat) -> nat
    decreases s.len(),
{
    if s.len() == 0 {
        0
    } else {
        count_nodes(s.drop_first(), id) + (if s[0] == id {
            1nat
        } else {
            0nat
        })
    }
}

/// Appending an entry raises the count exactly when it matches.
pub proof fn lemma_count_nodes_push(s: Seq<nat>, v: nat, id: nat)
    ensures
        count_nodes(s.push(v), id) == count_nodes(s, id) + (if v == id {
            1nat
        } else {
            0nat
        }),
    decreases s.len(),
{
    if s.len() == 0 {
        assert(s.push(v).len() == 1);
        assert(s.push(v).drop_first() =~= Seq::<nat>::empty());
        assert(count_nodes(s.push(v).drop_first(), id) == 0);
        assert(s.push(v)[0] == v);
        assert(count_nodes(s, id) == 0);
    } else {
        lemma_count_nodes_push(s.drop_first(), v, id);
        assert(s.push(v).drop_first() =~= s.drop_first().push(v));
        assert(s.push(v)[0] == s[0]);
        assert(count_nodes(s.push(v), id) == count_nodes(s.drop_first().push(v), id) + (if s[0]
            == id {
            1nat
        } else {
            0nat
        }));
        assert(count_nodes(s, id) == count_nodes(s.drop_first(), id) + (if s[0] == id {
            1nat
        } else {
            0nat
        }));
    }
}

/// The distinct sample names among `walks`, each at its first appearance.
pub open spec fn samples_of(walks: Seq<WalkV>) -> Seq<Seq<char>>
    decreases walks.len(),
{
    if walks.len() == 0 {
        Seq::<Seq<char>>::empty()
    } else {
        let p = samples_of(walks.drop_last());
        if p.contains(walks.last().sample) {
            p
        } else {
            p.push(walks.last().sample)
        }
    }
}

/// How many times the node `id` occurs across the traversals of `sample`
/// among `walks`; a sample may contribute several walks, and counts
/// accumulate over all of them.
pub open spec fn cell_count(walks: Seq<WalkV>, sample: Seq<char>, id: nat) -> nat
    decreases walks.len(),
{
    if walks.len() == 0 {
        0
    } else {
        cell_count(walks.drop_last(), sample, id) + (if walks.last().sample == sample {
            count_nodes(extract_nodes(walks.last().unit), id)
        } else {
            0
        })
    }
}

/// Whether `v` holds a string equal to `s`.
fn contains_string(v: &Vec<String>, s: &String) -> (r: bool)
    ensures
        r == v.deep_view().contains(s@),
{
    let mut j: usize = 0;
    while j < v.len()
        invariant
            0 <= j <= v@.len(),
            forall|k: int| 0 <= k < j ==> v.deep_view()[k] != s@,
        decreases v@.len() - j,
    {
        if v[j] == *s {
            proof {
                assert(v.deep_view()[j as int] == s@);
            }
            return true;
        }
        j = j + 1;
    }
    proof {
        assert(!v.deep_view().contains(s@)) by {
            if v.deep_view().contains(s@) {
                let k = choose|k: int| 0 <= k < v.deep_view().len() && v.deep_view()[k] == s@;
            }
        }
    }
    false
}

/// The distinct sample names among `walks`, in first-appearance order.
fn collect_samples(walks: &Vec<Walk>) -> (r: Vec<String>)
    ensures
        r.deep_view() == samples_of(walk_views(walks@)),
{
    let ghost wv = walk_views(walks@);
    let mut samples: Vec<String> = Vec::new();
    let mut i: usize = 0;
    proof {
        assert(wv.take(0) =~= Seq::<WalkV>::empty());
        assert(samples.deep_view() =~~= samples_of(wv.take(0)));
    }
    while i < walks.len()
        invariant
            0 <= i <= walks@.len(),
            wv == walk_views(walks@),
            samples.deep_view() == samples_of(wv.take(i as int)),
        decreases walks@.len() - i,
    {
        let w = &walks[i];
        proof {
            assert(wv.take(i as int + 1).drop_last() =~= wv.take(i as int));
            assert(wv.take(i as int + 1).last() == wv[i as int]);
            assert(wv[i as int] == w@);
        }
        if !contains_string(&samples, &w.sample) {
            let ghost old_dv = samples.deep_view();
            samples.push(w.sample.clone());
            proof {
                assert(samples.deep_view() =~~= old_dv.push(w.sample@));
            }
        }
        i = i + 1;
    }
    proof {
        assert(wv.take(i as int) =~= wv);
    }
    samples
}

/// The distinct ids of `nodes` in strictly ascending order.
fn collect_ids(nodes: &Vec<usize>) -> (r: Vec<usize>)
    ensures
        forall|a: int, b: int| 0 <= a < b < r@.len() ==> r@[a] < r@[b],
        forall|x: usize| r@.contains(x) <==> nodes@.contains(x),
{
    let mut ids: Vec<usize> = Vec::new();
    let mut i: usize = 0;
    while i < nodes.len()
        invariant
            0 <= i <= nodes@.len(),
            forall|a: int, b: int| 0 <= a < b < ids@.len() ==> ids@[a] < ids@[b],
            forall|x: usize| ids@.contains(x) <==> nodes@.take(i as int).contains(x),
        decreases nodes@.len() - i,
    {
        let n = nodes[i];
        let ghost old_ids = ids@;
        let mut pos: usize = 0;
        while pos < ids.len() && ids[pos] < n
            invariant
                0 <= pos <= ids@.len(),
                ids@ == old_ids,
                forall|k: int| 0 <= k < pos ==> ids@[k] < n,
                forall|a: int, b: int| 0 <= a < b < ids@.len() ==> ids@[a] < ids@[b],
            decreases ids@.len() - pos,
        {
            pos = pos + 1;
        }
        let already = pos < ids.len() && ids[pos] == n;
        if !already {
            ids.insert(pos, n);
            proof {
                assert(ids@ == old_ids.insert(pos as int, n));
                assert forall|a: int, b: int|
                    0 <= a < b < ids@.len() implies ids@[a] < ids@[b] by {
                    if b < pos {
                    } else if a > pos {
                    } else if a == pos && b > pos {
                        assert(ids@[b] == old_ids[b - 1]);
                        assert(old_ids[pos as int] != n);
                        assert(old_ids[pos as int] > n || old_ids[pos as int] < n);
                        if pos < b - 1 {
                            assert(old_ids[pos as int] <= old_ids[b - 1]);
                        }
                    } else if b == pos {
                        assert(ids@[a] == old_ids[a]);
                    } else {
                        assert(a < pos && b > pos);
                        assert(ids@[a] == old_ids[a] && ids@[b] == old_ids[b - 1]);
                        if a < pos - 1 {
                            assert(old_ids[a] <= old_ids[pos - 1]);
                        }
                    }
                }
                assert forall|x: usize|
                    ids@.contains(x) <==> nodes@.take(i as int + 1).contains(x) by {
                    assert(nodes@.take(i as int + 1) =~= nodes@.take(i as int).push(n));
                    if ids@.contains(x) {
                        let k = choose|k: int| 0 <= k < ids@.len() && ids@[k] == x;
                        if k == pos {
                            assert(nodes@.take(i as int + 1).last() == n);
                        } else {
                            let k0: int = if k < pos {
                                k
                            } else {
                                k - 1
                            };
                            assert(old_ids[k0] == x);
                            assert(old_ids.contains(x));
                            assert(nodes@.take(i as int).contains(x));
                            let q = choose|q: int|
                                0 <= q < nodes@.take(i as int).len() && #[trigger] nodes@.take(
                                    i as int,
                                )[q] == x;
                            assert(nodes@.take(i as int + 1)[q] == x);
                        }
                    }
                    if nodes@.take(i as int + 1).contains(x) {
                        let q = choose|q: int|
                            0 <= q < nodes@.take(i as int + 1).len() && #[trigger] nodes@.take(
                                i as int + 1,
                            )[q] == x;
                        if q == i {
                            assert(x == n);
                            assert(ids@[pos as int] == n);
                        } else {
                            assert(nodes@.take(i as int)[q] == x);
                            assert(nodes@.take(i as int).contains(x));
                            assert(old_ids.contains(x));
                            let k = choose|k: int| 0 <= k < old_ids.len() && old_ids[k] == x;
                            if k < pos {
                                assert(ids@[k] == x);
                            } else {
                                assert(ids@[k + 1] == x);
                            }
                        }
                    }
                }
            }
        } else {
            proof {
                assert(ids@[pos as int] == n);
                assert(ids@.contains(n));
                assert forall|x: usize|
                    ids@.contains(x) <==> nodes@.take(i as int + 1).contains(x) by {
                    assert(nodes@.take(i as int + 1) =~= nodes@.take(i as int).push(n));
                    if ids@.contains(x) {
                        if x == n {
                            assert(nodes@.take(i as int + 1).last() == n);
                        } else {
                            assert(nodes@.take(i as int).contains(x));
                            let q = choose|q: int|
                                0 <= q < nodes@.take(i as int).len() && #[trigger] nodes@.take(
                                    i as int,
                                )[q] == x;
                            assert(nodes@.take(i as int + 1)[q] == x);
                        }
                    }
                    if nodes@.take(i as int + 1).contains(x) {
                        let q = choose|q: int|
                            0 <= q < nodes@.take(i as int + 1).len() && #[trigger] nodes@.take(
                                i as int + 1,
                            )[q] == x;
                        if q == i {
                            assert(x == n);
                        } else {
                            assert(nodes@.take(i as int)[q] == x);
                            assert(nodes@.take(i as int).contains(x));
                        }
                    }
                }
            }
        }
        i = i + 1;
    }
    proof {
        assert(nodes@.take(i as int) =~= nodes@);
    }
    ids
}

/// How often the node `id` occurs across the traversals that belong to
/// `sample`, capped at `u32::MAX`.
fn cell_for(walks: &Vec<Walk>, sample: &String, id: usize) -> (c: u32)
    ensures
        c as nat == min_nat(cell_count(walk_views(walks@), sample@, id as nat), u32::MAX as nat),
{
    let ghost wv = walk_views(walks@);
    let mut c: u32 = 0;
    let mut k: usize = 0;
    proof {
        assert(wv.take(0) =~= Seq::<WalkV>::empty());
    }
    while k < walks.len()
        invariant
            0 <= k <= walks@.len(),
            wv == walk_views(walks@),
            c as nat == min_nat(cell_count(wv.take(k as int), sample@, id as nat), u32::MAX as nat),
        decreases walks@.len() - k,
    {
        let w = &walks[k];
        proof {
            assert(wv.take(k as int + 1).drop_last() =~= wv.take(k as int));
            assert(wv.take(k as int + 1).last() == wv[k as int]);
            assert(wv[k as int] == w@);
        }
        if w.sample == *sample {
            let ghost base = cell_count(wv.take(k as int), sample@, id as nat);
            let ghost full = extract_nodes(w.unit@);
            let ghost mut done: Seq<nat> = Seq::<nat>::empty();
            let mut it = w.extract_node();
            proof {
                assert(done + it.remaining() =~= full);
                assert(count_nodes(done, id as nat) == 0);
            }
            loop
                invariant
                    it.wf(),
                    it.progress() >= 0,
                    done + it.remaining() == full,
                    c as nat == min_nat(
                        base + count_nodes(done, id as nat),
                        u32::MAX as nat,
                    ),
                ensures
                    c as nat == min_nat(base + count_nodes(full, id as nat), u32::MAX as nat),
                decreases it.progress(),
            {
                match it.next() {
                    Some(v) => {
                        let ghost pre_done = done;
                        let ghost pre_rem = pre_done + it.remaining();
                        proof {
                            lemma_count_nodes_push(pre_done, v as nat, id as nat);
                            done = pre_done.push(v as nat);
                            assert(done + it.remaining() =~= full) by {
                                assert(pre_done + (seq![v as nat] + it.remaining()) =~= full);
                                assert(pre_done.push(v as nat) + it.remaining() =~= pre_done + (
                                seq![v as nat] + it.remaining()));
                            }
                        }
                        if v == id {
                            if c == u32::MAX {
                                proof {
                                    assert(base + count_nodes(pre_done, id as nat)
                                        >= u32::MAX as nat);
                                }
                            } else {
                                c = c + 1;
                            }
                        }
                    },
                    None => {
                        proof {
                            assert(it.remaining().len() == 0);
                            assert(done =~= full);
                        }
                        break ;
                    },
                }
            }
            proof {
                assert(cell_count(wv.take(k as int + 1), sample@, id as nat) == base + count_nodes(
                    full,
                    id as nat,
                ));
            }
        } else {
            proof {
                assert(wv.take(k as int + 1).last().sample != sample@);
                assert(cell_count(wv.take(k as int + 1), sample@, id as nat) == cell_count(
                    wv.take(k as int),
                    sample@,
                    id as nat,
                ));
            }
        }
        k = k + 1;
    }
    proof {
        assert(wv.take(k as int) =~= wv);
    }
    c
}

/// A presence/absence table: one row per requested node id (ascending), one
/// column per distinct sample (in first-appearance order), each cell the
/// occurrence count of that id across that sample's traversals.
pub struct PavMatrix {
    pub samples: Vec<String>,
    pub node_ids: Vec<usize>,
    pub counts: Vec<Vec<u32>>,
}

/// Tabulates, for every distinct requested node id and every sample among
/// `walks`, how many times the id occurs across that sample's traversals.
/// Ids never seen for a sample count 0; counts cap at `u32::MAX`.
pub fn pav_matrix(walks: &Vec<Walk>, nodes: &Vec<usize>) -> (r: PavMatrix)
    ensures
        r.samples.deep_view() == samples_of(walk_views(walks@)),
        forall|a: int, b: int| 0 <= a < b < r.node_ids@.len() ==> r.node_ids@[a] < r.node_ids@[b],
        forall|x: usize| r.node_ids@.contains(x) <==> nodes@.contains(x),
        r.counts@.len() == r.node_ids@.len(),
        forall|i: int| 0 <= i < r.counts@.len() ==> (#[trigger] r.counts@[i])@.len()
            == r.samples@.len(),
        forall|i: int, j: int|
            0 <= i < r.counts@.len() && 0 <= j < r.samples@.len() ==> (#[trigger] r.counts@[i]@[j])
                as nat == min_nat(
                cell_count(
                    walk_views(walks@),
                    r.samples.deep_view()[j],
                    r.node_ids@[i] as nat,
                ),
                u32::MAX as nat,
            ),
{
    let ghost wv = walk_views(walks@);
    let samples = collect_samples(walks);
    let node_ids = collect_ids(nodes);
    let ghost sdv = samples.deep_view();
    let mut counts: Vec<Vec<u32>> = Vec::new();
    let mut i: usize = 0;
    while i < node_ids.len()
        invariant
            0 <= i <= node_ids@.len(),
            wv == walk_views(walks@),
            sdv == samples.deep_view(),
            sdv.len() == samples@.len(),
            counts@.len() == i,
            forall|a: int| 0 <= a < i ==> (#[trigger] counts@[a])@.len() == samples@.len(),
            forall|a: int, b: int|
                0 <= a < i && 0 <= b < samples@.len() ==> (#[trigger] counts@[a]@[b]) as nat
                    == min_nat(cell_count(wv, sdv[b], node_ids@[a] as nat), u32::MAX as nat),
        decreases node_ids@.len() - i,
    {
        let id = node_ids[i];
        let mut row: Vec<u32> = Vec::new();
        let mut j: usize = 0;
        while j < samples.len()
            invariant
                0 <= j <= samples@.len(),
                wv == walk_views(walks@),
                sdv == samples.deep_view(),
                sdv.len() == samples@.len(),
                id == node_ids@[i as int],
                i < node_ids@.len(),
                row@.len() == j,
                forall|b: int|
                    0 <= b < j ==> (#[trigger] row@[b]) as nat == min_nat(
                        cell_count(wv, sdv[b], id as nat),
                        u32::MAX as nat,
                    ),
            decreases samples@.len() - j,
        {
            let c = cell_for(walks, &samples[j], id);
            proof {
                assert(samples@[j as int]@ == sdv[j as int]);
            }
            row.push(c);
            j = j + 1;
        }
        counts.push(row);
        i = i + 1;
    }
    PavMatrix { samples, node_ids, counts }
}

/// Reads one line of a node-list file: ASCII whitespace is trimmed at the
/// edges and the rest must be a nonempty decimal number that fits in
/// `usize`.
pub fn parse_node_id(line: &[u8]) -> (r: Result<usize, CmdError>)
    ensures
        r is Ok <==> crate::gfa::strict_dec_ok(trim_spec(line@), usize::MAX as nat),
        r matches Ok(n) ==> n == crate::bytes::dec_value(trim_spec(line@)),
        r matches Err(e) ==> e == CmdError::ParseError,
{
    let t = trim_bytes(line);
    if t.len() == 0 {
        return Err(CmdError::ParseError);
    }
    match dec_to_usize(t.as_slice()) {
        Some(n) => Ok(n),
        None => Err(CmdError::ParseError),
    }
}

} // verus!
