//! Edge rows, and how they are cut into one batch for each graph.

use vstd::prelude::*;

verus! {

/// One edge row of the input: the graph it belongs to and the two ends of
/// the edge.
#[derive(Clone, Copy, Debug, PartialEq, Eq, Structural)]
pub struct EdgeRow {
    pub graph_id: i64,
    pub source_id: i64,
    pub target_id: i64,
}

/// The batches laid end to end, each edge under the graph of its batch.
pub open spec fn flattened(batches: Seq<(i64, Vec<(i64, i64)>)>) -> Seq<EdgeRow>
    decreases batches.len(),
{
    if batches.len() == 0 {
        Seq::empty()
    } else {
        flattened(batches.drop_last()) + batches.last().1@.map_values(
            |e: (i64, i64)| EdgeRow { graph_id: batches.last().0, source_id: e.0, target_id: e.1 },
        )
    }
}

/// Whether `batches` are the rows cut where the graph changes: laid end to
/// end they give the rows back, none is empty, and two that follow one
/// another belong to different graphs.
pub open spec fn are_batches(rows: Seq<EdgeRow>, batches: Seq<(i64, Vec<(i64, i64)>)>) -> bool {
    &&& flattened(batches) == rows
    &&& forall|b: int| 0 <= b < batches.len() ==> (#[trigger] batches[b]).1@.len() > 0
    &&& forall|b: int| 0 <= b < batches.len() - 1 ==> (#[trigger] batches[b]).0 != batches[b + 1].0
}

/// The rows of the last batch stand at the end of the rows laid end to end,
/// each under the graph of that batch.
pub proof fn lemma_last_batch(batches: Seq<(i64, Vec<(i64, i64)>)>)
    requires
        batches.len() > 0,
    ensures
        flattened(batches).len() == flattened(batches.drop_last()).len() + batches.last().1@.len(),
        flattened(batches).subrange(0, flattened(batches.drop_last()).len() as int) == flattened(
            batches.drop_last(),
        ),
        forall|i: int|
            0 <= i < batches.last().1@.len() ==> (#[trigger] flattened(batches)[flattened(
                batches.drop_last(),
            ).len() + i]) == (EdgeRow {
                graph_id: batches.last().0,
                source_id: batches.last().1@[i].0,
                target_id: batches.last().1@[i].1,
            }),
{
    let front = flattened(batches.drop_last());
    assert(flattened(batches).subrange(0, front.len() as int) =~= front);
}

/// Rows can be cut into batches in one way only.
pub proof fn lemma_batches_unique(
    rows: Seq<EdgeRow>,
    a: Seq<(i64, Vec<(i64, i64)>)>,
    b: Seq<(i64, Vec<(i64, i64)>)>,
)
    requires
        are_batches(rows, a),
        are_batches(rows, b),
    ensures
        a.len() == b.len(),
        forall|i: int| 0 <= i < a.len() ==> (#[trigger] a[i]).0 == b[i].0 && a[i].1@ == b[i].1@,
    decreases a.len(),
{
    if a.len() == 0 {
        if b.len() > 0 {
            lemma_last_batch(b);
            assert(b[b.len() - 1].1@.len() > 0);
        }
    } else if b.len() == 0 {
        lemma_last_batch(a);
        assert(a[a.len() - 1].1@.len() > 0);
    } else {
        let n = rows.len() as int;
        let la = a.last().1@.len() as int;
        let lb = b.last().1@.len() as int;
        let fa = a.drop_last();
        let fb = b.drop_last();
        lemma_last_batch(a);
        lemma_last_batch(b);
        assert(a[a.len() - 1].1@.len() > 0);
        assert(b[b.len() - 1].1@.len() > 0);
        assert(rows[flattened(fa).len() + (la - 1)].graph_id == a.last().0);
        assert(rows[flattened(fb).len() + (lb - 1)].graph_id == b.last().0);
        if la < lb {
            lemma_end_of_front(a);
            assert(rows[flattened(fb).len() + (n - la - 1 - (n - lb))].graph_id == b.last().0);
        }
        if lb < la {
            lemma_end_of_front(b);
            assert(rows[flattened(fa).len() + (n - lb - 1 - (n - la))].graph_id == a.last().0);
        }
        assert(a.last().1@ =~= b.last().1@) by {
            assert forall|i: int| 0 <= i < la implies a.last().1@[i] == b.last().1@[i] by {
                assert(rows[flattened(fa).len() + i].source_id == a.last().1@[i].0);
                assert(rows[flattened(fb).len() + i].source_id == b.last().1@[i].0);
                assert(rows[flattened(fa).len() + i].target_id == a.last().1@[i].1);
                assert(rows[flattened(fb).len() + i].target_id == b.last().1@[i].1);
            }
        }
        let front = rows.subrange(0, n - la);
        assert(are_batches(front, fa)) by {
            assert forall|x: int| 0 <= x < fa.len() implies (#[trigger] fa[x]).1@.len() > 0 by {
                assert(fa[x] == a[x]);
            }
            assert forall|x: int| 0 <= x < fa.len() - 1 implies (#[trigger] fa[x]).0 != fa[x + 1].0 by {
                assert(fa[x] == a[x]);
                assert(a[x].0 != a[x + 1].0);
            }
        }
        assert(are_batches(front, fb)) by {
            assert forall|x: int| 0 <= x < fb.len() implies (#[trigger] fb[x]).1@.len() > 0 by {
                assert(fb[x] == b[x]);
            }
            assert forall|x: int| 0 <= x < fb.len() - 1 implies (#[trigger] fb[x]).0 != fb[x + 1].0 by {
                assert(fb[x] == b[x]);
                assert(b[x].0 != b[x + 1].0);
            }
        }
        lemma_batches_unique(front, fa, fb);
        assert forall|i: int| 0 <= i < a.len() implies (#[trigger] a[i]).0 == b[i].0 && a[i].1@
            == b[i].1@ by {
            if i < a.len() - 1 {
                assert(fa[i] == a[i]);
                assert(fb[i] == b[i]);
            }
        }
    }
}

/// Where the last batch is not all there is, the row in front of it belongs
/// to another graph.
pub proof fn lemma_end_of_front(batches: Seq<(i64, Vec<(i64, i64)>)>)
    requires
        batches.len() > 0,
        forall|b: int| 0 <= b < batches.len() ==> (#[trigger] batches[b]).1@.len() > 0,
        forall|b: int| 0 <= b < batches.len() - 1 ==> (#[trigger] batches[b]).0 != batches[b + 1].0,
        flattened(batches.drop_last()).len() > 0,
    ensures
        flattened(batches)[flattened(batches.drop_last()).len() - 1].graph_id != batches.last().0,
{
    let front = batches.drop_last();
    lemma_last_batch(batches);
    assert(front.len() > 0);
    lemma_last_batch(front);
    let k = front.last().1@.len() as int;
    assert(front[front.len() - 1] == batches[batches.len() - 2]);
    assert(batches[batches.len() - 2].1@.len() > 0);
    assert(batches[batches.len() - 2].0 != batches[batches.len() - 2 + 1].0);
    assert(flattened(front)[flattened(front.drop_last()).len() + (k - 1)].graph_id == front.last().0);
    assert(flattened(batches).subrange(0, flattened(front).len() as int)[flattened(front).len() - 1]
        == flattened(batches)[flattened(front).len() - 1]);
}

/// Cuts the rows into batches, one for each run of rows of one graph.
pub fn batch_rows(rows: &Vec<EdgeRow>) -> (r: Vec<(i64, Vec<(i64, i64)>)>)
    ensures
        are_batches(rows@, r@),
{
    let mut batches: Vec<(i64, Vec<(i64, i64)>)> = Vec::new();
    let mut i: usize = 0;
    assert(flattened(batches@) =~= rows@.subrange(0, 0));
    while i < rows.len()
        invariant
            i <= rows.len(),
            are_batches(rows@.subrange(0, i as int), batches@),
            i > 0 ==> batches@.len() > 0 && batches@[batches@.len() - 1].0 == rows@[i - 1].graph_id,
            i == 0 ==> batches@.len() == 0,
        decreases rows.len() - i,
    {
        let row: EdgeRow = rows[i];
        let ghost done = rows@.subrange(0, i as int);
        let ghost old_batches = batches@;
        let extend: bool = i > 0 && rows[i - 1].graph_id == row.graph_id;
        if extend {
            let last: (i64, Vec<(i64, i64)>) = batches.pop().unwrap();
            let graph_id: i64 = last.0;
            let mut edges: Vec<(i64, i64)> = last.1;
            let ghost old_edges = edges@;
            edges.push((row.source_id, row.target_id));
            batches.push((graph_id, edges));
            proof {
                let front = old_batches.drop_last();
                assert(batches@.drop_last() =~= front);
                let to_row = |e: (i64, i64)| EdgeRow { graph_id: graph_id, source_id: e.0, target_id: e.1 };
                assert(batches@.last().1@.map_values(to_row) =~= old_edges.map_values(to_row).push(row));
                assert(flattened(batches@) =~= flattened(old_batches).push(row));
                assert forall|b: int| 0 <= b < batches@.len() - 1 implies (#[trigger] batches@[b]).0
                    != batches@[b + 1].0 by {
                    assert(batches@[b] == old_batches[b]);
                    assert(old_batches[b].0 != old_batches[b + 1].0);
                }
                assert forall|b: int| 0 <= b < batches@.len() implies (#[trigger] batches@[b]).1@.len() > 0 by {
                    if b < batches@.len() - 1 {
                        assert(batches@[b] == old_batches[b]);
                    }
                }
            }
        } else {
            let mut edges: Vec<(i64, i64)> = Vec::new();
            edges.push((row.source_id, row.target_id));
            batches.push((row.graph_id, edges));
            proof {
                assert(batches@.drop_last() =~= old_batches);
                let to_row = |e: (i64, i64)|
                    EdgeRow { graph_id: row.graph_id, source_id: e.0, target_id: e.1 };
                assert(batches@.last().1@.map_values(to_row) =~= seq![row]);
                assert(flattened(batches@) =~= flattened(old_batches).push(row));
                assert forall|b: int| 0 <= b < batches@.len() - 1 implies (#[trigger] batches@[b]).0
                    != batches@[b + 1].0 by {
                    assert(batches@[b] == old_batches[b]);
                    if b < old_batches.len() - 1 {
                        assert(old_batches[b].0 != old_batches[b + 1].0);
                    }
                }
                assert forall|b: int| 0 <= b < batches@.len() implies (#[trigger] batches@[b]).1@.len() > 0 by {
                    if b < batches@.len() - 1 {
                        assert(batches@[b] == old_batches[b]);
                    }
                }
            }
        }
        proof {
            assert(rows@.subrange(0, i + 1) =~= done.push(row));
        }
        i += 1;
    }
    assert(rows@.subrange(0, rows.len() as int) =~= rows@);
    batches
}

} // verus!
