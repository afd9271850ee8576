//! Query groups: partitioning the query set by content scope.
//!
//! Queries sharing one content scope are grouped together; a worker
//! compiles each group independently into one scan engine.  Groups are
//! formed in order of first appearance, and every query lands in exactly
//! one group — the one whose content scope it carries.
use vstd::prelude::*;

verus! {

/// The kind of content a query's triggers run on.
#[derive(Clone, Copy, PartialEq, Eq, Structural)]
pub enum ScopeContent {
    /// The raw fetched bytes.
    Raw,
    /// Text extracted from the document.
    Text,
}

/// One query definition, as this pipeline reads it: its identifier, its
/// content scope — the partition key — and its full serialized text,
/// which only the scan engine interprets.
pub struct Query {
    pub id: Option<Vec<u8>>,
    pub content: ScopeContent,
    pub source: Vec<u8>,
}

/// The model of a query.
pub struct QueryModel {
    pub id: Option<Seq<u8>>,
    pub content: ScopeContent,
    pub source: Seq<u8>,
}

impl View for Query {
    type V = QueryModel;

    open spec fn view(&self) -> QueryModel {
        QueryModel {
            id: match self.id {
                Some(i) => Some(i@),
                None => None,
            },
            content: self.content,
            source: self.source@,
        }
    }
}

impl DeepView for Query {
    type V = QueryModel;

    open spec fn deep_view(&self) -> QueryModel {
        self.view()
    }
}

/// Queries sharing one content scope, compiled together into one scan
/// engine.
pub struct QueryGroup {
    pub content: ScopeContent,
    pub queries: Vec<Query>,
}

/// The model of a query group.
pub struct QueryGroupModel {
    pub content: ScopeContent,
    pub queries: Seq<QueryModel>,
}

impl View for QueryGroup {
    type V = QueryGroupModel;

    open spec fn view(&self) -> QueryGroupModel {
        QueryGroupModel { content: self.content, queries: self.queries.deep_view() }
    }
}

impl DeepView for QueryGroup {
    type V = QueryGroupModel;

    open spec fn deep_view(&self) -> QueryGroupModel {
        self.view()
    }
}

/// The first group with the given content scope, at or after `i`.
pub open spec fn find_group_from(gs: Seq<QueryGroupModel>, c: ScopeContent, i: int) -> Option<int>
    decreases gs.len() - i,
{
    if i < 0 || i >= gs.len() {
        None
    } else if gs[i].content == c {
        Some(i)
    } else {
        find_group_from(gs, c, i + 1)
    }
}

/// Put one query into the groups: into the group already carrying its
/// content scope, or into a fresh group at the end.
pub open spec fn add_query(gs: Seq<QueryGroupModel>, q: QueryModel) -> Seq<QueryGroupModel> {
    match find_group_from(gs, q.content, 0) {
        Some(i) => gs.update(
            i,
            QueryGroupModel { content: gs[i].content, queries: gs[i].queries.push(q) },
        ),
        None => gs.push(QueryGroupModel { content: q.content, queries: seq![q] }),
    }
}

/// The groups a query sequence partitions into, in order of first
/// appearance.
pub open spec fn group_queries_spec(qs: Seq<QueryModel>) -> Seq<QueryGroupModel>
    decreases qs.len(),
{
    if qs.len() == 0 {
        Seq::<QueryGroupModel>::empty()
    } else {
        add_query(group_queries_spec(qs.drop_last()), qs.last())
    }
}

/// How many times `q` occurs in a query sequence.
pub open spec fn count_in(s: Seq<QueryModel>, q: QueryModel) -> nat
    decreases s.len(),
{
    if s.len() == 0 {
        0
    } else {
        count_in(s.drop_last(), q) + (if s.last() == q {
            1nat
        } else {
            0nat
        })
    }
}

/// How many times `q` occurs across all groups.
pub open spec fn count_in_groups(gs: Seq<QueryGroupModel>, q: QueryModel) -> nat
    decreases gs.len(),
{
    if gs.len() == 0 {
        0
    } else {
        count_in_groups(gs.drop_last(), q) + count_in(gs.last().queries, q)
    }
}

/// What `find_group_from` finds: the first group with that scope, or the
/// promise that none carries it.
proof fn lemma_find_group_props(gs: Seq<QueryGroupModel>, c: ScopeContent, i: int)
    requires
        0 <= i,
    ensures
        match find_group_from(gs, c, i) {
            Some(m) => {
                &&& i <= m < gs.len()
                &&& gs[m].content == c
                &&& forall|j: int| i <= j < m ==> gs[j].content != c
            },
            None => forall|j: int| i <= j < gs.len() ==> gs[j].content != c,
        },
    decreases gs.len() - i,
{
    if i < gs.len() && gs[i].content != c {
        lemma_find_group_props(gs, c, i + 1);
    }
}

/// Pushing one query onto a sequence raises its count, and only its.
proof fn lemma_count_in_push(s: Seq<QueryModel>, x: QueryModel, q: QueryModel)
    ensures
        count_in(s.push(x), q) == count_in(s, q) + (if x == q {
            1nat
        } else {
            0nat
        }),
{
    assert(s.push(x).drop_last() =~= s);
    assert(s.push(x).last() == x);
}

/// Replacing one group changes the total count by what changed inside
/// that group.
proof fn lemma_count_groups_update(
    gs: Seq<QueryGroupModel>,
    i: int,
    g: QueryGroupModel,
    q: QueryModel,
)
    requires
        0 <= i < gs.len(),
    ensures
        count_in_groups(gs.update(i, g), q) + count_in(gs[i].queries, q) == count_in_groups(gs, q)
            + count_in(g.queries, q),
    decreases gs.len(),
{
    let upd = gs.update(i, g);
    if i == gs.len() - 1 {
        assert(upd.drop_last() =~= gs.drop_last());
        assert(upd.last() == g);
    } else {
        assert(upd.drop_last() =~= gs.drop_last().update(i, g));
        assert(upd.last() == gs.last());
        lemma_count_groups_update(gs.drop_last(), i, g, q);
    }
}

/// Appending a fresh group adds exactly its own count.
proof fn lemma_count_groups_push(gs: Seq<QueryGroupModel>, g: QueryGroupModel, q: QueryModel)
    ensures
        count_in_groups(gs.push(g), q) == count_in_groups(gs, q) + count_in(g.queries, q),
{
    assert(gs.push(g).drop_last() =~= gs);
    assert(gs.push(g).last() == g);
}

/// Putting one query in raises the groups' total count of it by one, and
/// of nothing else.
proof fn lemma_add_query_count(gs: Seq<QueryGroupModel>, x: QueryModel, q: QueryModel)
    ensures
        count_in_groups(add_query(gs, x), q) == count_in_groups(gs, q) + (if x == q {
            1nat
        } else {
            0nat
        }),
{
    lemma_find_group_props(gs, x.content, 0);
    match find_group_from(gs, x.content, 0) {
        Some(i) => {
            let g = QueryGroupModel { content: gs[i].content, queries: gs[i].queries.push(x) };
            lemma_count_in_push(gs[i].queries, x, q);
            lemma_count_groups_update(gs, i, g, q);
        },
        None => {
            let g = QueryGroupModel { content: x.content, queries: seq![x] };
            assert(seq![x].drop_last() =~= Seq::<QueryModel>::empty());
            assert(count_in(Seq::<QueryModel>::empty(), q) == 0);
            assert(seq![x].last() == x);
            assert(count_in(g.queries, q) == (if x == q {
                1nat
            } else {
                0nat
            }));
            lemma_count_groups_push(gs, g, q);
        },
    }
}

/// The group partition invariant, first half: every group the partition
/// produces is nonempty, holds only queries of its own content scope,
/// and no two groups share a scope.
pub proof fn lemma_groups_partition(qs: Seq<QueryModel>)
    ensures
        forall|g: int|
            0 <= g < group_queries_spec(qs).len() ==> #[trigger] group_queries_spec(
                qs,
            )[g].queries.len() >= 1,
        forall|g: int, j: int|
            0 <= g < group_queries_spec(qs).len() && 0 <= j < group_queries_spec(
                qs,
            )[g].queries.len() ==> (#[trigger] group_queries_spec(qs)[g].queries[j]).content
                == group_queries_spec(qs)[g].content,
        forall|g1: int, g2: int|
            0 <= g1 < g2 < group_queries_spec(qs).len() ==> #[trigger] group_queries_spec(
                qs,
            )[g1].content != #[trigger] group_queries_spec(qs)[g2].content,
    decreases qs.len(),
{
    if qs.len() > 0 {
        lemma_groups_partition(qs.drop_last());
        let prev = group_queries_spec(qs.drop_last());
        let x = qs.last();
        lemma_find_group_props(prev, x.content, 0);
        match find_group_from(prev, x.content, 0) {
            Some(i) => {
                let cur = group_queries_spec(qs);
                assert(cur == prev.update(
                    i,
                    QueryGroupModel { content: prev[i].content, queries: prev[i].queries.push(x) },
                ));
                assert forall|g: int, j: int|
                    0 <= g < cur.len() && 0 <= j < cur[g].queries.len() implies (
                #[trigger] cur[g].queries[j]).content == cur[g].content by {
                    if g == i && j == cur[g].queries.len() - 1 {
                        assert(cur[g].queries[j] == x);
                    } else if g == i {
                        assert(cur[g].queries[j] == prev[g].queries[j]);
                    } else {
                        assert(cur[g] == prev[g]);
                    }
                }
            },
            None => {},
        }
    }
}

/// The group partition invariant, second half: across all groups, every
/// query of the input occurs exactly as often as it did in the input —
/// nothing is duplicated and nothing is lost.
pub proof fn lemma_group_partition_exact(qs: Seq<QueryModel>, q: QueryModel)
    ensures
        count_in_groups(group_queries_spec(qs), q) == count_in(qs, q),
    decreases qs.len(),
{
    if qs.len() > 0 {
        lemma_group_partition_exact(qs.drop_last(), q);
        lemma_add_query_count(group_queries_spec(qs.drop_last()), qs.last(), q);
    }
}

/// How many scanner threads each group's engine gets: the thread budget
/// divided evenly among the groups, any remainder left unused.
pub fn threads_per_group(threads: u8, group_count: usize) -> (r: u8)
    requires
        group_count >= 1,
    ensures
        r == threads as int / group_count as int,
{
    if group_count > 255 {
        proof {
            vstd::arithmetic::div_mod::lemma_basic_div(threads as int, group_count as int);
        }
        0
    } else {
        threads / (group_count as u8)
    }
}

/// Partition a query set into its groups, in order of first appearance.
pub fn group_queries(queries: Vec<Query>) -> (groups: Vec<QueryGroup>)
    ensures
        groups.deep_view() == group_queries_spec(queries.deep_view()),
{
    let ghost full = queries.deep_view();
    let mut rest = queries;
    let total = rest.len();
    let mut groups: Vec<QueryGroup> = Vec::new();
    let mut i: usize = 0;
    proof {
        assert(full.len() == total);
        assert(rest.deep_view() =~~= full.skip(0));
        assert(full.take(0) =~= Seq::<QueryModel>::empty());
        assert(groups.deep_view() =~~= group_queries_spec(full.take(0)));
    }
    while rest.len() > 0
        invariant
            i + rest@.len() == full.len(),
            full.len() <= usize::MAX,
            rest.deep_view() == full.skip(i as int),
            groups.deep_view() == group_queries_spec(full.take(i as int)),
        decreases rest@.len(),
    {
        let ghost before = rest.deep_view();
        let q = rest.remove(0);
        proof {
            assert(q.deep_view() == before[0]);
            assert(before[0] == full[i as int]);
            assert(rest.deep_view() =~~= before.drop_first());
            assert(before.drop_first() =~= full.skip(i + 1));
        }
        let ghost qm = q@;
        let ghost gdv = groups.deep_view();
        let mut j: usize = 0;
        let mut found: Option<usize> = None;
        while j < groups.len()
            invariant
                j <= groups@.len(),
                qm == q@,
                gdv == groups.deep_view(),
                gdv.len() == groups@.len(),
                match found {
                    Some(m) => find_group_from(gdv, qm.content, 0) == Some(m as int) && m < j,
                    None => find_group_from(gdv, qm.content, 0) == find_group_from(
                        gdv,
                        qm.content,
                        j as int,
                    ),
                },
                found is Some ==> j == groups@.len(),
            decreases groups@.len() - j + (if found is None {
                1int
            } else {
                0int
            }),
        {
            if found.is_none() {
                proof {
                    assert(gdv[j as int] == groups@[j as int]@);
                }
                if groups[j].content == q.content {
                    found = Some(j);
                    proof {
                        assert(gdv[j as int].content == qm.content);
                    }
                    j = groups.len();
                } else {
                    proof {
                        assert(gdv[j as int].content != qm.content);
                    }
                    j = j + 1;
                }
            } else {
                j = groups.len();
            }
        }
        match found {
            Some(m) => {
                let mut g = groups.remove(m);
                let ghost gm_old = g@;
                let ghost removed_dv = groups.deep_view();
                g.queries.push(q);
                proof {
                    assert(g@.queries =~~= gm_old.queries.push(qm));
                }
                let ghost gm_new = g@;
                groups.insert(m, g);
                proof {
                    assert(removed_dv =~~= gdv.remove(m as int));
                    assert(groups.deep_view() =~~= gdv.remove(m as int).insert(m as int, gm_new));
                    assert(gdv.remove(m as int).insert(m as int, gm_new) =~~= gdv.update(
                        m as int,
                        gm_new,
                    ));
                    assert(gm_new.content == gdv[m as int].content);
                    assert(gm_new =~~= (QueryGroupModel {
                        content: gdv[m as int].content,
                        queries: gdv[m as int].queries.push(qm),
                    }));
                    assert(groups.deep_view() =~~= add_query(gdv, qm));
                }
            },
            None => {
                let mut members: Vec<Query> = Vec::new();
                members.push(q);
                let g = QueryGroup { content: members[0].content, queries: members };
                proof {
                    assert(g@.queries =~~= seq![qm]);
                    assert(g@.content == qm.content);
                }
                groups.push(g);
                proof {
                    assert(groups.deep_view() =~~= gdv.push(
                        (QueryGroupModel { content: qm.content, queries: seq![qm] }),
                    ));
                    assert(groups.deep_view() =~~= add_query(gdv, qm));
                }
            },
        }
        proof {
            assert(full.take(i + 1).drop_last() =~= full.take(i as int));
            assert(full.take(i + 1).last() == full[i as int]);
            assert(group_queries_spec(full.take(i + 1)) == add_query(
                group_queries_spec(full.take(i as int)),
                full[i as int],
            ));
        }
        i = i + 1;
    }
    proof {
        assert(full.take(full.len() as int) =~= full);
    }
    groups
}

} // verus!
