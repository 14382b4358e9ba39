use vstd::prelude::*;
use crate::errors::{Error, configuration_failure};
use crate::archive_store::{Archive, ArchiveFile, ArchiveStore, BlobHandle};
use crate::polygon::parser::{Group, Judging, Problem, TestSet};
use crate::problem::config::DependencyGraph;
use crate::problem::token::{chars_of, digit_val, is_digit, number_value, string_of, text_is};

verus! {

/// What the dependency graph reads of a group.
pub struct GroupModel {
    pub name: Seq<char>,
    pub feedback_policy: Seq<char>,
    pub points_policy: Seq<char>,
    pub dependencies: Seq<Seq<char>>,
}

/// What the dependency graph reads of a testset.
pub struct TestSetModel {
    pub test_count: nat,
    /// The group name of each test, in test order.
    pub test_groups: Seq<Seq<char>>,
    pub groups: Seq<GroupModel>,
}

pub open spec fn group_model(g: Group) -> GroupModel {
    GroupModel {
        name: g.name@,
        feedback_policy: g.feedback_policy@,
        points_policy: g.points_policy@,
        dependencies: match g.dependencies {
            Some(d) => d.dependency@.map_values(|x: crate::polygon::parser::Dependency| x.group@),
            None => seq![],
        },
    }
}

pub open spec fn testset_model(t: TestSet) -> TestSetModel {
    TestSetModel {
        test_count: t.test_count as nat,
        test_groups: t.tests@.map_values(|x: crate::polygon::parser::Test| x.group@),
        groups: t.groups@.map_values(|g: Group| group_model(g)),
    }
}

/// The indices, in order, of the first `n` tests that belong to group `g`.
pub open spec fn members(tg: Seq<Seq<char>>, g: Seq<char>, n: int) -> Seq<int>
    decreases n,
{
    if n <= 0 {
        seq![]
    } else if tg[n - 1] == g {
        members(tg, g, n - 1).push(n - 1)
    } else {
        members(tg, g, n - 1)
    }
}

pub open spec fn group_members(ts: TestSetModel, g: Seq<char>) -> Seq<int> {
    members(ts.test_groups, g, ts.test_groups.len() as int)
}

pub open spec fn valid_feedback(f: Seq<char>) -> bool {
    f == "none"@ || f == "points"@ || f == "icpc"@ || f == "complete"@
}

pub open spec fn valid_points(p: Seq<char>) -> bool {
    p == "complete-group"@ || p == "each-test"@
}

/// Every test of the group depends on every other: a ring.
pub open spec fn is_ring(g: GroupModel) -> bool {
    g.points_policy == "complete-group"@ && (g.feedback_policy == "none"@ || g.feedback_policy
        == "points"@)
}

/// Tests are judged top to bottom: a chain.
pub open spec fn is_chain(g: GroupModel) -> bool {
    g.points_policy == "complete-group"@ && g.feedback_policy == "icpc"@
}

pub open spec fn declared(ts: TestSetModel, name: Seq<char>) -> bool {
    exists|gi: int| 0 <= gi < ts.groups.len() && (#[trigger] ts.groups[gi]).name == name
}

pub open spec fn group_valid(ts: TestSetModel, g: GroupModel) -> bool {
    &&& g.name.len() > 0
    &&& valid_points(g.points_policy)
    &&& valid_feedback(g.feedback_policy)
    &&& group_members(ts, g.name).len() > 0
    &&& forall|d: int| 0 <= d < g.dependencies.len() ==> declared(ts, #[trigger] g.dependencies[d])
}

/// The checks that a testset passes: its count agrees, its groups are named, non-empty, of
/// known policies and depend on declared groups, and every grouped test names a declared group.
pub open spec fn testset_valid(ts: TestSetModel) -> bool {
    &&& ts.test_count == ts.test_groups.len()
    &&& forall|gi: int| 0 <= gi < ts.groups.len() ==> group_valid(ts, #[trigger] ts.groups[gi])
    &&& forall|t: int|
        0 <= t < ts.test_groups.len() ==> (#[trigger] ts.test_groups[t]).len() == 0 || declared(
            ts,
            ts.test_groups[t],
        )
}

pub open spec fn ring_edges(m: Seq<int>) -> Seq<(int, int)> {
    if m.len() > 1 {
        Seq::new(m.len(), |i: int| (m[i], m[(i + 1) % (m.len() as int)]))
    } else {
        seq![]
    }
}

pub open spec fn chain_edges(m: Seq<int>) -> Seq<(int, int)> {
    if m.len() > 1 {
        Seq::new((m.len() - 1) as nat, |i: int| (m[i], m[i + 1]))
    } else {
        seq![]
    }
}

/// An edge from every test of `from` to every test of `to`.
pub open spec fn cross(from: Seq<int>, to: Seq<int>) -> Seq<(int, int)>
    decreases from.len(),
{
    if from.len() == 0 {
        seq![]
    } else {
        cross(from.drop_last(), to) + Seq::new(to.len(), |j: int| (from.last(), to[j]))
    }
}

/// The edges from the groups that `g` depends on (the first `k` of them) into `g`.
pub open spec fn dependency_edges(ts: TestSetModel, g: GroupModel, k: int) -> Seq<(int, int)>
    decreases k,
{
    if k <= 0 {
        seq![]
    } else {
        dependency_edges(ts, g, k - 1) + cross(
            group_members(ts, g.dependencies[k - 1]),
            group_members(ts, g.name),
        )
    }
}

/// The edges that group `g` brings: a ring or a chain over its tests, then its dependencies.
pub open spec fn group_edges(ts: TestSetModel, g: GroupModel) -> Seq<(int, int)> {
    let m = group_members(ts, g.name);
    (if is_ring(g) {
        ring_edges(m)
    } else if is_chain(g) {
        chain_edges(m)
    } else {
        seq![]
    }) + dependency_edges(ts, g, g.dependencies.len() as int)
}

/// The edges of the first `k` groups of a testset, in its own numbering.
pub open spec fn testset_edges(ts: TestSetModel, k: int) -> Seq<(int, int)>
    decreases k,
{
    if k <= 0 {
        seq![]
    } else {
        testset_edges(ts, k - 1) + group_edges(ts, ts.groups[k - 1])
    }
}

pub open spec fn shift(e: Seq<(int, int)>, o: int) -> Seq<(int, int)> {
    e.map_values(|x: (int, int)| (x.0 + o, x.1 + o))
}

/// The number of tests in the first `k` testsets.
pub open spec fn offset(ts: Seq<TestSetModel>, k: int) -> int
    decreases k,
{
    if k <= 0 {
        0
    } else {
        offset(ts, k - 1) + ts[k - 1].test_groups.len()
    }
}

/// The edges of the first `k` testsets, numbered one after the other.
pub open spec fn all_edges(ts: Seq<TestSetModel>, k: int) -> Seq<(int, int)>
    decreases k,
{
    if k <= 0 {
        seq![]
    } else {
        all_edges(ts, k - 1) + shift(
            testset_edges(ts[k - 1], ts[k - 1].groups.len() as int),
            offset(ts, k - 1),
        )
    }
}

/// The heads of the edges of `e` whose tail is `u`, in order.
pub open spec fn row_of(e: Seq<(int, int)>, u: int) -> Seq<int>
    decreases e.len(),
{
    if e.len() == 0 {
        seq![]
    } else if e.last().0 == u {
        row_of(e.drop_last(), u).push(e.last().1)
    } else {
        row_of(e.drop_last(), u)
    }
}

pub open spec fn judging_model(j: Judging) -> Seq<TestSetModel> {
    j.testset@.map_values(|t: TestSet| testset_model(t))
}

pub open spec fn total_tests(ts: Seq<TestSetModel>) -> int {
    offset(ts, ts.len() as int)
}

pub open spec fn judging_valid(ts: Seq<TestSetModel>) -> bool {
    forall|i: int| 0 <= i < ts.len() ==> testset_valid(#[trigger] ts[i])
}

pub open spec fn idx_views(v: Seq<usize>) -> Seq<int> {
    v.map_values(|x: usize| x as int)
}

pub open spec fn pair_views(v: Seq<(usize, usize)>) -> Seq<(int, int)> {
    v.map_values(|x: (usize, usize)| (x.0 as int, x.1 as int))
}

pub open spec fn u64_views(v: Seq<u64>) -> Seq<int> {
    v.map_values(|x: u64| x as int)
}

/// All ends of the edges lie in `[lo, hi)`.
pub open spec fn edges_in(e: Seq<(int, int)>, lo: int, hi: int) -> bool {
    forall|i: int| 0 <= i < e.len() ==> lo <= (#[trigger] e[i]).0 < hi && lo <= e[i].1 < hi
}

pub open spec fn all_in(m: Seq<int>, lo: int, hi: int) -> bool {
    forall|i: int| 0 <= i < m.len() ==> lo <= #[trigger] m[i] < hi
}

proof fn lemma_members_in(tg: Seq<Seq<char>>, g: Seq<char>, n: int)
    requires
        0 <= n <= tg.len(),
    ensures
        all_in(members(tg, g, n), 0, n),
    decreases n,
{
    if n > 0 {
        lemma_members_in(tg, g, n - 1);
    }
}

proof fn lemma_cross_in(from: Seq<int>, to: Seq<int>, hi: int)
    requires
        all_in(from, 0, hi),
        all_in(to, 0, hi),
    ensures
        edges_in(cross(from, to), 0, hi),
    decreases from.len(),
{
    if from.len() > 0 {
        lemma_cross_in(from.drop_last(), to, hi);
    }
}

proof fn lemma_dependency_edges_in(ts: TestSetModel, g: GroupModel, k: int)
    requires
        k <= g.dependencies.len(),
    ensures
        edges_in(dependency_edges(ts, g, k), 0, ts.test_groups.len() as int),
    decreases k,
{
    let n = ts.test_groups.len() as int;
    if k > 0 {
        lemma_dependency_edges_in(ts, g, k - 1);
        lemma_members_in(ts.test_groups, g.dependencies[k - 1], n);
        lemma_members_in(ts.test_groups, g.name, n);
        lemma_cross_in(group_members(ts, g.dependencies[k - 1]), group_members(ts, g.name), n);
    }
}

proof fn lemma_group_edges_in(ts: TestSetModel, g: GroupModel)
    ensures
        edges_in(group_edges(ts, g), 0, ts.test_groups.len() as int),
{
    let n = ts.test_groups.len() as int;
    let m = group_members(ts, g.name);
    lemma_members_in(ts.test_groups, g.name, n);
    lemma_dependency_edges_in(ts, g, g.dependencies.len() as int);
    if m.len() > 1 {
        let r = ring_edges(m);
        assert forall|i: int| 0 <= i < r.len() implies 0 <= (#[trigger] r[i]).0 < n && 0 <= r[i].1
            < n by {
            let j = (i + 1) % (m.len() as int);
            assert(0 <= j < m.len());
        }
    }
}

proof fn lemma_testset_edges_in(ts: TestSetModel, k: int)
    requires
        0 <= k <= ts.groups.len(),
    ensures
        edges_in(testset_edges(ts, k), 0, ts.test_groups.len() as int),
    decreases k,
{
    if k > 0 {
        lemma_testset_edges_in(ts, k - 1);
        lemma_group_edges_in(ts, ts.groups[k - 1]);
    }
}

pub(crate) proof fn lemma_offset_mono(ts: Seq<TestSetModel>, a: int, b: int)
    requires
        0 <= a <= b <= ts.len(),
    ensures
        0 <= offset(ts, a) <= offset(ts, b),
    decreases b,
{
    if b > 0 {
        lemma_offset_mono(
            ts,
            if a < b {
                a
            } else {
                b - 1
            },
            b - 1,
        );
    }
}

proof fn lemma_all_edges_in(ts: Seq<TestSetModel>, k: int)
    requires
        0 <= k <= ts.len(),
    ensures
        edges_in(all_edges(ts, k), 0, offset(ts, k)),
    decreases k,
{
    if k > 0 {
        lemma_all_edges_in(ts, k - 1);
        lemma_offset_mono(ts, 0, k - 1);
        let t = ts[k - 1];
        lemma_testset_edges_in(t, t.groups.len() as int);
    }
}

/// Every test id that the dependency graph of a manifest mentions, as a key or as a
/// dependent, is below the total number of tests.
pub proof fn lemma_dependency_graph_in_range(j: Seq<TestSetModel>)
    ensures
        edges_in(all_edges(j, j.len() as int), 0, total_tests(j)),
        forall|u: int, i: int|
            0 <= i < row_of(all_edges(j, j.len() as int), u).len() ==> 0 <= #[trigger] row_of(
                all_edges(j, j.len() as int),
                u,
            )[i] < total_tests(j),
{
    let e = all_edges(j, j.len() as int);
    lemma_all_edges_in(j, j.len() as int);
    assert forall|u: int, i: int| 0 <= i < row_of(e, u).len() implies 0 <= #[trigger] row_of(
        e,
        u,
    )[i] < total_tests(j) by {
        lemma_row_in(e, u, total_tests(j));
    }
}

proof fn lemma_row_in(e: Seq<(int, int)>, u: int, hi: int)
    requires
        edges_in(e, 0, hi),
    ensures
        all_in(row_of(e, u), 0, hi),
    decreases e.len(),
{
    if e.len() > 0 {
        lemma_row_in(e.drop_last(), u, hi);
    }
}

fn members_exec(ts: &TestSet, g: &String) -> (r: Vec<usize>)
    ensures
        idx_views(r@) == group_members(testset_model(*ts), g@),
        forall|i: int| 0 <= i < r@.len() ==> #[trigger] r@[i] < ts.tests@.len(),
{
    let ghost tg = testset_model(*ts).test_groups;
    let mut r: Vec<usize> = Vec::new();
    let mut i: usize = 0;
    assert(idx_views(r@) =~= seq![]);
    while i < ts.tests.len()
        invariant
            i <= ts.tests@.len(),
            tg == testset_model(*ts).test_groups,
            idx_views(r@) == members(tg, g@, i as int),
            forall|k: int| 0 <= k < r@.len() ==> #[trigger] r@[k] < i,
        decreases ts.tests@.len() - i,
    {
        assert(tg[i as int] == ts.tests@[i as int].group@);
        if ts.tests[i].group == *g {
            let ghost before = idx_views(r@);
            r.push(i);
            assert(idx_views(r@) =~= before.push(i as int));
        }
        i += 1;
    }
    r
}

fn declared_exec(ts: &TestSet, name: &String) -> (r: bool)
    ensures
        r == declared(testset_model(*ts), name@),
{
    let ghost m = testset_model(*ts);
    let mut i: usize = 0;
    while i < ts.groups.len()
        invariant
            i <= ts.groups@.len(),
            m == testset_model(*ts),
            forall|k: int| 0 <= k < i ==> (#[trigger] m.groups[k]).name != name@,
        decreases ts.groups@.len() - i,
    {
        assert(m.groups[i as int].name == ts.groups@[i as int].name@);
        if ts.groups[i].name == *name {
            return true;
        }
        i += 1;
    }
    false
}

fn group_valid_exec(ts: &TestSet, gi: usize) -> (r: bool)
    requires
        gi < ts.groups@.len(),
    ensures
        r == group_valid(testset_model(*ts), testset_model(*ts).groups[gi as int]),
{
    let ghost m = testset_model(*ts);
    let g = &ts.groups[gi];
    let ghost gm = m.groups[gi as int];
    assert(gm == group_model(*g));
    if g.name.as_str().is_empty() {
        return false;
    }
    if !(text_is(&g.points_policy, "complete-group") || text_is(&g.points_policy, "each-test")) {
        return false;
    }
    if !(text_is(&g.feedback_policy, "none") || text_is(&g.feedback_policy, "points") || text_is(
        &g.feedback_policy,
        "icpc",
    ) || text_is(&g.feedback_policy, "complete")) {
        return false;
    }
    let mem = members_exec(ts, &g.name);
    if mem.len() == 0 {
        return false;
    }
    match &g.dependencies {
        None => {
            assert(gm.dependencies =~= seq![]);
        },
        Some(deps) => {
            let mut d: usize = 0;
            while d < deps.dependency.len()
                invariant
                    d <= deps.dependency@.len(),
                    m == testset_model(*ts),
                    gm == m.groups[gi as int],
                    gm.dependencies == deps.dependency@.map_values(
                        |x: crate::polygon::parser::Dependency| x.group@,
                    ),
                    forall|k: int| 0 <= k < d ==> declared(m, #[trigger] gm.dependencies[k]),
                decreases deps.dependency@.len() - d,
            {
                assert(gm.dependencies[d as int] == deps.dependency@[d as int].group@);
                if !declared_exec(ts, &deps.dependency[d].group) {
                    return false;
                }
                d += 1;
            }
        },
    }
    true
}

/// Checks a testset as the dependency graph needs it.
fn validate_testset(ts: &TestSet) -> (r: Result<(), Error>)
    ensures
        r is Ok <==> testset_valid(testset_model(*ts)),
        r matches Err(e) ==> e is ConfigurationFailure,
{
    let ghost m = testset_model(*ts);
    if ts.test_count != ts.tests.len() {
        return Err(configuration_failure("the number of tests does not agree with test-count"));
    }
    let mut gi: usize = 0;
    while gi < ts.groups.len()
        invariant
            gi <= ts.groups@.len(),
            m == testset_model(*ts),
            ts.test_count == ts.tests@.len(),
            forall|k: int| 0 <= k < gi ==> group_valid(m, #[trigger] m.groups[k]),
        decreases ts.groups@.len() - gi,
    {
        if !group_valid_exec(ts, gi) {
            return Err(
                configuration_failure(
                    "a group is unnamed, empty, of an unknown policy, or depends on an unknown group",
                ),
            );
        }
        gi += 1;
    }
    let mut t: usize = 0;
    while t < ts.tests.len()
        invariant
            t <= ts.tests@.len(),
            m == testset_model(*ts),
            ts.test_count == ts.tests@.len(),
            forall|k: int| 0 <= k < ts.groups@.len() ==> group_valid(m, #[trigger] m.groups[k]),
            forall|k: int|
                0 <= k < t ==> (#[trigger] m.test_groups[k]).len() == 0 || declared(
                    m,
                    m.test_groups[k],
                ),
        decreases ts.tests@.len() - t,
    {
        assert(m.test_groups[t as int] == ts.tests@[t as int].group@);
        let g = &ts.tests[t].group;
        if !g.as_str().is_empty() && !declared_exec(ts, g) {
            return Err(configuration_failure("a test belongs to a group that is not declared"));
        }
        t += 1;
    }
    Ok(())
}

fn push_ring(e: &mut Vec<(usize, usize)>, m: &Vec<usize>)
    ensures
        pair_views(final(e)@) == pair_views(old(e)@) + ring_edges(idx_views(m@)),
{
    let ghost start = pair_views(e@);
    let ghost mv = idx_views(m@);
    let n = m.len();
    if n <= 1 {
        assert(pair_views(e@) =~= start + ring_edges(mv));
        return;
    }
    let mut i: usize = 0;
    while i < n
        invariant
            i <= n == m@.len(),
            n > 1,
            mv == idx_views(m@),
            pair_views(e@) == start + Seq::new(i as nat, |k: int| (mv[k], mv[(k + 1) % (n as int)])),
        decreases n - i,
    {
        let j = if i + 1 == n {
            0
        } else {
            i + 1
        };
        proof {
            if i + 1 == n {
                vstd::arithmetic::div_mod::lemma_mod_self_0(n as int);
            } else {
                vstd::arithmetic::div_mod::lemma_small_mod((i + 1) as nat, n as nat);
            }
        }
        assert(j as int == (i + 1) % (n as int));
        let ghost before = pair_views(e@);
        e.push((m[i], m[j]));
        assert(pair_views(e@) =~= before.push((mv[i as int], mv[j as int])));
        assert(pair_views(e@) =~= start + Seq::new(
            (i + 1) as nat,
            |k: int| (mv[k], mv[(k + 1) % (n as int)]),
        ));
        i += 1;
    }
}

fn push_chain(e: &mut Vec<(usize, usize)>, m: &Vec<usize>)
    ensures
        pair_views(final(e)@) == pair_views(old(e)@) + chain_edges(idx_views(m@)),
{
    let ghost start = pair_views(e@);
    let ghost mv = idx_views(m@);
    let n = m.len();
    if n <= 1 {
        assert(pair_views(e@) =~= start + chain_edges(mv));
        return;
    }
    let mut i: usize = 0;
    while i + 1 < n
        invariant
            i < n == m@.len(),
            mv == idx_views(m@),
            pair_views(e@) == start + Seq::new(i as nat, |k: int| (mv[k], mv[k + 1])),
        decreases n - i,
    {
        let ghost before = pair_views(e@);
        e.push((m[i], m[i + 1]));
        assert(pair_views(e@) =~= before.push((mv[i as int], mv[i + 1])));
        assert(pair_views(e@) =~= start + Seq::new((i + 1) as nat, |k: int| (mv[k], mv[k + 1])));
        i += 1;
    }
}

fn push_cross(e: &mut Vec<(usize, usize)>, from: &Vec<usize>, to: &Vec<usize>)
    ensures
        pair_views(final(e)@) == pair_views(old(e)@) + cross(idx_views(from@), idx_views(to@)),
{
    let ghost start = pair_views(e@);
    let ghost fv = idx_views(from@);
    let ghost tv = idx_views(to@);
    let mut i: usize = 0;
    assert(fv.take(0) =~= seq![]);
    assert(pair_views(e@) =~= start + cross(fv.take(0), tv));
    while i < from.len()
        invariant
            i <= from@.len(),
            fv == idx_views(from@),
            tv == idx_views(to@),
            pair_views(e@) == start + cross(fv.take(i as int), tv),
        decreases from@.len() - i,
    {
        let ghost mid = pair_views(e@);
        let mut j: usize = 0;
        while j < to.len()
            invariant
                i < from@.len(),
                j <= to@.len(),
                fv == idx_views(from@),
                tv == idx_views(to@),
                pair_views(e@) == mid + Seq::new(j as nat, |k: int| (fv[i as int], tv[k])),
            decreases to@.len() - j,
        {
            let ghost before = pair_views(e@);
            e.push((from[i], to[j]));
            assert(pair_views(e@) =~= before.push((fv[i as int], tv[j as int])));
            assert(pair_views(e@) =~= mid + Seq::new((j + 1) as nat, |k: int| (fv[i as int], tv[k])));
            j += 1;
        }
        assert(fv.take(i + 1).drop_last() =~= fv.take(i as int));
        assert(pair_views(e@) =~= start + cross(fv.take(i + 1), tv));
        i += 1;
    }
    assert(fv.take(from@.len() as int) =~= fv);
}

fn push_group_edges(e: &mut Vec<(usize, usize)>, ts: &TestSet, gi: usize)
    requires
        gi < ts.groups@.len(),
    ensures
        pair_views(final(e)@) == pair_views(old(e)@) + group_edges(
            testset_model(*ts),
            testset_model(*ts).groups[gi as int],
        ),
{
    let ghost m = testset_model(*ts);
    let ghost start = pair_views(e@);
    let g = &ts.groups[gi];
    let ghost gm = m.groups[gi as int];
    assert(gm == group_model(*g));
    let mem = members_exec(ts, &g.name);
    let complete = text_is(&g.points_policy, "complete-group");
    if complete && (text_is(&g.feedback_policy, "none") || text_is(&g.feedback_policy, "points")) {
        push_ring(e, &mem);
    } else if complete && text_is(&g.feedback_policy, "icpc") {
        push_chain(e, &mem);
    }
    let ghost own = pair_views(e@);
    assert(own == start + (if is_ring(gm) {
        ring_edges(group_members(m, gm.name))
    } else if is_chain(gm) {
        chain_edges(group_members(m, gm.name))
    } else {
        seq![]
    }));
    match &g.dependencies {
        None => {
            assert(gm.dependencies =~= seq![]);
            assert(dependency_edges(m, gm, 0) =~= seq![]);
            assert(pair_views(e@) =~= own + dependency_edges(m, gm, 0));
        },
        Some(deps) => {
            let mut d: usize = 0;
            assert(pair_views(e@) =~= own + dependency_edges(m, gm, 0));
            while d < deps.dependency.len()
                invariant
                    d <= deps.dependency@.len(),
                    m == testset_model(*ts),
                    gm == m.groups[gi as int],
                    gm.dependencies == deps.dependency@.map_values(
                        |x: crate::polygon::parser::Dependency| x.group@,
                    ),
                    idx_views(mem@) == group_members(m, gm.name),
                    pair_views(e@) == own + dependency_edges(m, gm, d as int),
                decreases deps.dependency@.len() - d,
            {
                assert(gm.dependencies[d as int] == deps.dependency@[d as int].group@);
                let from = members_exec(ts, &deps.dependency[d].group);
                push_cross(e, &from, &mem);
                assert(pair_views(e@) =~= own + dependency_edges(m, gm, d + 1));
                d += 1;
            }
        },
    }
    assert(pair_views(e@) =~= start + group_edges(m, gm));
}

/// The edges of a testset, in its own numbering.
fn testset_edges_exec(ts: &TestSet) -> (r: Vec<(usize, usize)>)
    ensures
        pair_views(r@) == testset_edges(testset_model(*ts), ts.groups@.len() as int),
{
    let ghost m = testset_model(*ts);
    let mut e: Vec<(usize, usize)> = Vec::new();
    let mut gi: usize = 0;
    assert(pair_views(e@) =~= seq![]);
    while gi < ts.groups.len()
        invariant
            gi <= ts.groups@.len(),
            m == testset_model(*ts),
            pair_views(e@) == testset_edges(m, gi as int),
        decreases ts.groups@.len() - gi,
    {
        push_group_edges(&mut e, ts, gi);
        gi += 1;
    }
    e
}

pub open spec fn edge_views(v: Seq<(u64, u64)>) -> Seq<(int, int)> {
    v.map_values(|x: (u64, u64)| (x.0 as int, x.1 as int))
}

/// The dependency graph of a manifest: testsets are numbered one after the other; inside a
/// group, `complete-group` points with `none`/`points` feedback make a ring and with `icpc`
/// feedback a chain; each group depends on the groups that it lists.
pub fn generate_dependency_graph(judging: &Judging) -> (r: Result<DependencyGraph, Error>)
    requires
        total_tests(judging_model(*judging)) < u64::MAX,
    ensures
        r is Ok <==> judging_valid(judging_model(*judging)),
        r matches Ok(g) ==> {
            let j = judging_model(*judging);
            &&& g.dependents_of@.len() == total_tests(j)
            &&& forall|u: int|
                0 <= u < total_tests(j) ==> u64_views(#[trigger] g.dependents_of@[u]@) == row_of(
                    all_edges(j, j.len() as int),
                    u,
                )
            &&& forall|u: int, i: int|
                0 <= u < g.dependents_of@.len() && 0 <= i < g.dependents_of@[u]@.len() ==> (
                #[trigger] g.dependents_of@[u]@[i]) < total_tests(j)
        },
        r matches Err(e) ==> e is ConfigurationFailure,
{
    let ghost j = judging_model(*judging);
    let mut edges: Vec<(u64, u64)> = Vec::new();
    let mut base: u64 = 0;
    let mut si: usize = 0;
    assert(edge_views(edges@) =~= seq![]);
    while si < judging.testset.len()
        invariant
            si <= judging.testset@.len(),
            j == judging_model(*judging),
            total_tests(j) < u64::MAX,
            base as int == offset(j, si as int),
            edge_views(edges@) == all_edges(j, si as int),
            forall|k: int| 0 <= k < si ==> testset_valid(#[trigger] j[k]),
        decreases judging.testset@.len() - si,
    {
        let ts = &judging.testset[si];
        assert(j[si as int] == testset_model(*ts));
        match validate_testset(ts) {
            Ok(()) => {},
            Err(e) => {
                return Err(e);
            },
        }
        let local = testset_edges_exec(ts);
        proof {
            lemma_testset_edges_in(j[si as int], j[si as int].groups.len() as int);
            lemma_offset_mono(j, si + 1, j.len() as int);
        }
        let ghost start = edge_views(edges@);
        let ghost lv = pair_views(local@);
        let mut k: usize = 0;
        while k < local.len()
            invariant
                k <= local@.len(),
                lv == pair_views(local@),
                edges_in(lv, 0, ts.tests@.len() as int),
                base as int + ts.tests@.len() < u64::MAX,
                edge_views(edges@) == start + shift(lv.take(k as int), base as int),
            decreases local@.len() - k,
        {
            assert(lv[k as int] == (local@[k as int].0 as int, local@[k as int].1 as int));
            let (a, b) = local[k];
            let ghost before = edge_views(edges@);
            edges.push((base + a as u64, base + b as u64));
            assert(edge_views(edges@) =~= before.push((a + base, b + base)));
            assert(lv.take(k + 1).drop_last() =~= lv.take(k as int));
            assert(shift(lv.take(k + 1), base as int) =~= shift(lv.take(k as int), base as int).push(
                (a + base, b + base),
            ));
            assert(edge_views(edges@) =~= start + shift(lv.take(k + 1), base as int));
            k += 1;
        }
        assert(lv.take(local@.len() as int) =~= lv);
        base = base + ts.tests.len() as u64;
        si += 1;
    }
    let ghost all = all_edges(j, j.len() as int);
    let mut rows: Vec<Vec<u64>> = Vec::new();
    let mut u: u64 = 0;
    while u < base
        invariant
            u <= base,
            base as int == total_tests(j),
            edge_views(edges@) == all,
            rows@.len() == u,
            forall|w: int| 0 <= w < u ==> u64_views(#[trigger] rows@[w]@) == row_of(all, w),
        decreases base - u,
    {
        let mut row: Vec<u64> = Vec::new();
        let mut k: usize = 0;
        assert(edge_views(edges@).take(0) =~= seq![]);
        assert(u64_views(row@) =~= seq![]);
        while k < edges.len()
            invariant
                k <= edges@.len(),
                edge_views(edges@) == all,
                u64_views(row@) == row_of(all.take(k as int), u as int),
            decreases edges@.len() - k,
        {
            assert(all[k as int] == (edges@[k as int].0 as int, edges@[k as int].1 as int));
            assert(all.take(k + 1).drop_last() =~= all.take(k as int));
            if edges[k].0 == u {
                let ghost before = u64_views(row@);
                row.push(edges[k].1);
                assert(u64_views(row@) =~= before.push(edges@[k as int].1 as int));
            }
            k += 1;
        }
        assert(all.take(edges@.len() as int) =~= all);
        rows.push(row);
        u += 1;
    }
    proof {
        lemma_dependency_graph_in_range(j);
        assert forall|u: int, i: int|
            0 <= u < rows@.len() && 0 <= i < rows@[u]@.len() implies (
            #[trigger] rows@[u]@[i]) < total_tests(j) by {
            assert(u64_views(rows@[u]@)[i] == rows@[u]@[i] as int);
            assert(row_of(all, u)[i] < total_tests(j));
        }
    }
    Ok(DependencyGraph { dependents_of: rows })
}

/// A printf-style file name with one `%d` or `%0Nd`: the text around it and the padding.
pub struct FileNamePattern {
    pub before: String,
    pub after: String,
    pub padding: usize,
}

pub open spec fn has_sub(s: Seq<char>, t: Seq<char>) -> bool {
    exists|i: int| 0 <= i && i + t.len() <= s.len() && #[trigger] s.subrange(i, i + t.len()) == t
}

pub open spec fn starts_with(s: Seq<char>, t: Seq<char>) -> bool {
    t.len() <= s.len() && s.subrange(0, t.len() as int) == t
}

pub open spec fn ends_with(s: Seq<char>, t: Seq<char>) -> bool {
    t.len() <= s.len() && s.subrange(s.len() - t.len(), s.len() as int) == t
}

/// A pattern that could leave the package: a parent step, an absolute path, `\` or `:`.
pub open spec fn unsafe_pattern(s: Seq<char>) -> bool {
    has_sub(s, "/../"@) || starts_with(s, "../"@) || ends_with(s, "/.."@) || starts_with(s, "/"@)
        || s.contains('\\') || s.contains(':')
}

/// The first position at or after `k` that holds `c`, or the length.
pub open spec fn find_from(s: Seq<char>, c: char, k: int) -> int
    decreases s.len() - k,
{
    if k < 0 || k >= s.len() || s[k] == c {
        k
    } else {
        find_from(s, c, k + 1)
    }
}

pub open spec fn all_digits(s: Seq<char>, a: int, b: int) -> bool {
    forall|k: int| a <= k < b ==> is_digit(#[trigger] s[k])
}

/// The text before the placeholder, the text after it, and the padding; `None` where the
/// pattern is unsafe or has not exactly one `%d` or `%0Nd` with `N < 128`.
pub open spec fn parse_format(s: Seq<char>) -> Option<(Seq<char>, Seq<char>, nat)> {
    let p = find_from(s, '%', 0);
    let d = find_from(s, 'd', p);
    if unsafe_pattern(s) || p >= s.len() || d >= s.len() || s.subrange(d + 1, s.len() as int).contains('%') {
        None
    } else if d == p + 1 {
        Some((s.subrange(0, p), s.subrange(d + 1, s.len() as int), 0))
    } else if s[p + 1] != '0' || d == p + 2 || !all_digits(s, p + 2, d) || number_value(s, p + 2, d, 10) >= 128 {
        None
    } else {
        Some((s.subrange(0, p), s.subrange(d + 1, s.len() as int), number_value(s, p + 2, d, 10)))
    }
}

pub open spec fn digit_char(d: nat) -> char {
    if d == 0 { '0' } else if d == 1 { '1' } else if d == 2 { '2' } else if d == 3 { '3' }
    else if d == 4 { '4' } else if d == 5 { '5' } else if d == 6 { '6' } else if d == 7 { '7' }
    else if d == 8 { '8' } else { '9' }
}

/// The decimal digits of `n`.
pub open spec fn decimal(n: nat) -> Seq<char>
    decreases n,
{
    if n < 10 {
        seq![digit_char(n)]
    } else {
        decimal(n / 10).push(digit_char(n % 10))
    }
}

/// `t` with zeros in front up to width `w`.
pub open spec fn zero_pad(t: Seq<char>, w: nat) -> Seq<char> {
    if t.len() >= w {
        t
    } else {
        Seq::new((w - t.len()) as nat, |i: int| '0') + t
    }
}

impl FileNamePattern {
    pub open spec fn model(&self) -> (Seq<char>, Seq<char>, nat) {
        (self.before@, self.after@, self.padding as nat)
    }

    /// Reads a printf-style pattern such as `tests/%03d.in`.
    pub fn from_printf_format(pattern: &str) -> (r: Result<FileNamePattern, Error>)
        ensures
            r is Ok <==> parse_format(pattern@) is Some,
            r matches Ok(f) ==> parse_format(pattern@) == Some(f.model()),
            r matches Err(e) ==> e is ConfigurationFailure,
    {
        let s = chars_of(pattern);
        let n = s.len();
        if has_sub_exec(&s, "/../") || starts_with_exec(&s, "../") || ends_with_exec(&s, "/..")
            || starts_with_exec(&s, "/") || contains_exec(&s, '\\') || contains_exec(&s, ':') {
            return Err(configuration_failure("a file name pattern must be a safe relative path"));
        }
        let p = find_exec(&s, '%', 0);
        if p >= n {
            return Err(configuration_failure("a file name pattern needs exactly one %d"));
        }
        let d = find_exec(&s, 'd', p);
        if d >= n {
            return Err(configuration_failure("a file name pattern needs exactly one %d"));
        }
        let after = slice_chars(&s, d + 1, n);
        if contains_exec(&after, '%') {
            return Err(configuration_failure("a file name pattern needs exactly one %d"));
        }
        let before = slice_chars(&s, 0, p);
        if d == p + 1 {
            return Ok(FileNamePattern { before: string_of(&before), after: string_of(&after), padding: 0 });
        }
        if s[p + 1] != '0' || d == p + 2 {
            return Err(configuration_failure("the placeholder must be %d or %0<number>d"));
        }
        let v = match padding_exec(&s, p + 2, d) {
            Some(v) => v,
            None => {
                return Err(
                    configuration_failure("the placeholder must be %d or %0<number>d, below 128"),
                );
            },
        };
        Ok(FileNamePattern { before: string_of(&before), after: string_of(&after), padding: v })
    }

    /// The file name of test `number`: the number zero-padded to the pattern's width.
    pub fn format(&self, number: usize) -> (r: String)
        ensures
            r@ == self.before@ + zero_pad(decimal(number as nat), self.padding as nat) + self.after@,
    {
        let digits = decimal_exec(number);
        let mut out = chars_of(self.before.as_str());
        let ghost b = out@;
        let mut k: usize = digits.len();
        while k < self.padding
            invariant
                digits@.len() <= k <= self.padding || (k == digits@.len() && k >= self.padding),
                out@ == b + Seq::new((k - digits@.len()) as nat, |i: int| '0'),
            decreases self.padding - k,
        {
            out.push('0');
            assert(out@ =~= b + Seq::new((k + 1 - digits@.len()) as nat, |i: int| '0'));
            k += 1;
        }
        let ghost padded = out@;
        let mut dg = digits;
        let ghost dv = dg@;
        out.append(&mut dg);
        let mut tail = chars_of(self.after.as_str());
        let ghost tv = tail@;
        let ghost mid = out@;
        out.append(&mut tail);
        proof {
            if dv.len() >= self.padding {
                assert(Seq::new(0nat, |i: int| '0') + dv =~= dv);
                assert(padded =~= b);
            }
            assert(out@ =~= b + zero_pad(decimal(number as nat), self.padding as nat) + tv);
        }
        string_of(&out)
    }
}

/// The padding written in `s[a..b]`: all digits, and below 128.
fn padding_exec(s: &Vec<char>, a: usize, b: usize) -> (r: Option<usize>)
    requires
        a <= b <= s@.len(),
    ensures
        r is Some <==> all_digits(s@, a as int, b as int) && number_value(s@, a as int, b as int, 10)
            < 128,
        r matches Some(v) ==> v as nat == number_value(s@, a as int, b as int, 10),
{
    let mut v: usize = 0;
    let mut k = a;
    while k < b
        invariant
            a <= k <= b <= s@.len(),
            v < 128,
            all_digits(s@, a as int, k as int),
            v as nat == number_value(s@, a as int, k as int, 10),
        decreases b - k,
    {
        if !crate::problem::token::is_digit_char(s[k]) {
            return None;
        }
        v = v * 10 + digit_val(s[k]) as usize;
        if v >= 128 {
            proof {
                if all_digits(s@, a as int, b as int) {
                    lemma_number_grows(s@, a as int, k + 1, b as int);
                }
            }
            return None;
        }
        k += 1;
    }
    Some(v)
}

proof fn lemma_number_grows(s: Seq<char>, a: int, k: int, d: int)
    requires
        a <= k <= d,
        all_digits(s, a, d),
        number_value(s, a, k, 10) >= 128,
    ensures
        number_value(s, a, d, 10) >= 128,
    decreases d - k,
{
    if k < d {
        lemma_number_grows(s, a, k + 1, d);
    }
}

fn decimal_exec(n: usize) -> (r: Vec<char>)
    ensures
        r@ == decimal(n as nat),
    decreases n,
{
    let d = n % 10;
    let c = if d == 0 { '0' } else if d == 1 { '1' } else if d == 2 { '2' } else if d == 3 { '3' }
        else if d == 4 { '4' } else if d == 5 { '5' } else if d == 6 { '6' } else if d == 7 { '7' }
        else if d == 8 { '8' } else { '9' };
    if n < 10 {
        let mut v = Vec::new();
        v.push(c);
        assert(v@ =~= seq![digit_char(n as nat)]);
        v
    } else {
        let mut v = decimal_exec(n / 10);
        v.push(c);
        v
    }
}

fn slice_chars(s: &Vec<char>, a: usize, b: usize) -> (r: Vec<char>)
    requires
        a <= b <= s@.len(),
    ensures
        r@ == s@.subrange(a as int, b as int),
{
    crate::problem::token::slice_exec(s, a, b)
}

fn find_exec(s: &Vec<char>, c: char, k: usize) -> (r: usize)
    requires
        k <= s@.len(),
    ensures
        r as int == find_from(s@, c, k as int),
        k <= r <= s@.len(),
        r < s@.len() ==> s@[r as int] == c,
        forall|j: int| k <= j < r ==> s@[j] != c,
{
    let mut i = k;
    while i < s.len() && s[i] != c
        invariant
            k <= i <= s@.len(),
            find_from(s@, c, i as int) == find_from(s@, c, k as int),
            forall|j: int| k <= j < i ==> s@[j] != c,
        decreases s@.len() - i,
    {
        i += 1;
    }
    i
}

fn contains_exec(s: &Vec<char>, c: char) -> (r: bool)
    ensures
        r == s@.contains(c),
{
    let mut i: usize = 0;
    while i < s.len()
        invariant
            i <= s@.len(),
            forall|j: int| 0 <= j < i ==> s@[j] != c,
        decreases s@.len() - i,
    {
        if s[i] == c {
            return true;
        }
        i += 1;
    }
    false
}

/// Whether `s[i..i + t.len()]` is `t`.
pub(crate) fn matches_at(s: &Vec<char>, t: &Vec<char>, i: usize) -> (r: bool)
    requires
        i + t@.len() <= s@.len(),
    ensures
        r == (s@.subrange(i as int, i + t@.len()) == t@),
{
    let n = s.len();
    let mut k: usize = 0;
    while k < t.len()
        invariant
            k <= t@.len(),
            n == s@.len(),
            i + t@.len() <= s@.len(),
            forall|j: int| 0 <= j < k ==> s@[i + j] == t@[j],
        decreases t@.len() - k,
    {
        if s[i + k] != t[k] {
            assert(s@.subrange(i as int, i + t@.len())[k as int] != t@[k as int]);
            return false;
        }
        k += 1;
    }
    assert(s@.subrange(i as int, i + t@.len()) =~= t@);
    true
}

fn has_sub_exec(s: &Vec<char>, lit: &str) -> (r: bool)
    ensures
        r == has_sub(s@, lit@),
{
    let t = chars_of(lit);
    if t.len() > s.len() {
        return false;
    }
    let last = s.len() - t.len();
    let mut i: usize = 0;
    while i <= last
        invariant
            t@ == lit@,
            last == s@.len() - t@.len(),
            i <= last + 1,
            forall|j: int| 0 <= j < i ==> #[trigger] s@.subrange(j, j + t@.len()) != t@,
        decreases last + 1 - i,
    {
        if matches_at(s, &t, i) {
            return true;
        }
        if i == last {
            return false;
        }
        i += 1;
    }
    false
}

fn starts_with_exec(s: &Vec<char>, lit: &str) -> (r: bool)
    ensures
        r == starts_with(s@, lit@),
{
    let t = chars_of(lit);
    t.len() <= s.len() && matches_at(s, &t, 0)
}

fn ends_with_exec(s: &Vec<char>, lit: &str) -> (r: bool)
    ensures
        r == ends_with(s@, lit@),
{
    let t = chars_of(lit);
    t.len() <= s.len() && matches_at(s, &t, s.len() - t.len())
}

/// What test registration reads of a testset.
pub struct PatternSetModel {
    pub input: Option<Seq<char>>,
    pub answer: Option<Seq<char>>,
    /// `(name, pattern)` of each `path-pattern`.
    pub named: Seq<(Seq<char>, Seq<char>)>,
    pub count: nat,
}

pub open spec fn opt_str(o: Option<String>) -> Option<Seq<char>> {
    match o {
        Some(s) => Some(s@),
        None => None,
    }
}

pub open spec fn pattern_set_model(t: TestSet) -> PatternSetModel {
    PatternSetModel {
        input: opt_str(t.input_path_pattern),
        answer: opt_str(t.answer_path_pattern),
        named: t.path_pattern@.map_values(
            |p: crate::polygon::parser::PathPattern| (p.name@, p.value@),
        ),
        count: t.tests@.len(),
    }
}

pub type NamedFormat = (Seq<char>, (Seq<char>, Seq<char>, nat));

pub open spec fn has_name(a: Seq<NamedFormat>, n: Seq<char>) -> bool {
    exists|i: int| 0 <= i < a.len() && (#[trigger] a[i]).0 == n
}

/// Adds a named pattern: it must parse, and its name must be new.
pub open spec fn add_pattern(a: Option<Seq<NamedFormat>>, n: Seq<char>, p: Seq<char>) -> Option<
    Seq<NamedFormat>,
> {
    match a {
        None => None,
        Some(a) => match parse_format(p) {
            None => None,
            Some(f) => if has_name(a, n) {
                None
            } else {
                Some(a.push((n, f)))
            },
        },
    }
}

pub open spec fn add_optional(a: Option<Seq<NamedFormat>>, n: Seq<char>, p: Option<Seq<char>>) -> Option<
    Seq<NamedFormat>,
> {
    match p {
        None => a,
        Some(p) => add_pattern(a, n, p),
    }
}

/// The first `k` `path-pattern`s added; each name must be free of slashes.
pub open spec fn add_named(a: Option<Seq<NamedFormat>>, named: Seq<(Seq<char>, Seq<char>)>, k: int) -> Option<
    Seq<NamedFormat>,
>
    decreases k,
{
    if k <= 0 {
        a
    } else {
        let n = named[k - 1].0;
        if n.contains('/') || n.contains('\\') {
            None
        } else {
            add_pattern(add_named(a, named, k - 1), n, named[k - 1].1)
        }
    }
}

/// The named patterns of a testset: `input`, `answer`, then each `path-pattern`.
pub open spec fn patterns_of(t: PatternSetModel) -> Option<Seq<NamedFormat>> {
    add_named(
        add_optional(add_optional(Some(seq![]), "input"@, t.input), "answer"@, t.answer),
        t.named,
        t.named.len() as int,
    )
}

/// The archive path of file `name` of test `i` (counted over all testsets from 0).
pub open spec fn test_path(i: nat, name: Seq<char>) -> Seq<char> {
    "tests/"@ + decimal(i) + "."@ + name
}

/// The package path that a parsed pattern gives for test number `n` (from 1).
pub open spec fn formatted(f: (Seq<char>, Seq<char>, nat), n: nat) -> Seq<char> {
    f.0 + zero_pad(decimal(n), f.2) + f.1
}

/// `(archive path, package path)` of each file of the first `t` tests of a testset.
pub open spec fn files_of(pats: Seq<NamedFormat>, base: nat, t: nat) -> Seq<(Seq<char>, Seq<char>)>
    decreases t,
{
    if t == 0 {
        seq![]
    } else {
        files_of(pats, base, (t - 1) as nat) + Seq::new(
            pats.len(),
            |k: int| (test_path((base + t - 1) as nat, pats[k].0), formatted(pats[k].1, t)),
        )
    }
}

/// The files of the first `k` testsets, after `base` tests; `None` where a pattern is bad.
pub open spec fn all_files(ts: Seq<PatternSetModel>, k: int) -> Option<(Seq<(Seq<char>, Seq<char>)>, nat)>
    decreases k,
{
    if k <= 0 {
        Some((seq![], 0))
    } else {
        match all_files(ts, k - 1) {
            None => None,
            Some((f, base)) => match patterns_of(ts[k - 1]) {
                None => None,
                Some(p) => Some((f + files_of(p, base, ts[k - 1].count), base + ts[k - 1].count)),
            },
        }
    }
}

pub open spec fn problem_pattern_sets(p: Problem) -> Seq<PatternSetModel> {
    p.judging.testset@.map_values(|t: TestSet| pattern_set_model(t))
}

/// Every `(archive path, package path)` pair of a problem's tests, in order.
pub open spec fn test_files_of(p: Problem) -> Option<Seq<(Seq<char>, Seq<char>)>> {
    let ts = problem_pattern_sets(p);
    match all_files(ts, ts.len() as int) {
        None => None,
        Some((f, _)) => Some(f),
    }
}

pub open spec fn named_views(v: Seq<(String, FileNamePattern)>) -> Seq<NamedFormat> {
    v.map_values(|e: (String, FileNamePattern)| (e.0@, e.1.model()))
}

fn has_name_exec(v: &Vec<(String, FileNamePattern)>, n: &String) -> (r: bool)
    ensures
        r == has_name(named_views(v@), n@),
{
    let mut i: usize = 0;
    while i < v.len()
        invariant
            i <= v@.len(),
            forall|k: int| 0 <= k < i ==> (#[trigger] named_views(v@)[k]).0 != n@,
        decreases v@.len() - i,
    {
        assert(named_views(v@)[i as int].0 == v@[i as int].0@);
        if v[i].0 == *n {
            return true;
        }
        i += 1;
    }
    false
}

fn add_pattern_exec(v: Vec<(String, FileNamePattern)>, n: String, p: &str) -> (r: Result<
    Vec<(String, FileNamePattern)>,
    Error,
>)
    ensures
        r is Ok <==> add_pattern(Some(named_views(v@)), n@, p@) is Some,
        r matches Ok(w) ==> add_pattern(Some(named_views(v@)), n@, p@) == Some(named_views(w@)),
        r matches Err(e) ==> e is ConfigurationFailure,
{
    let f = match FileNamePattern::from_printf_format(p) {
        Ok(f) => f,
        Err(e) => {
            return Err(e);
        },
    };
    if has_name_exec(&v, &n) {
        return Err(configuration_failure("a path pattern is given twice for one name"));
    }
    let ghost before = named_views(v@);
    let ghost entry = (n@, f.model());
    let mut v = v;
    v.push((n, f));
    assert(named_views(v@) =~= before.push(entry));
    Ok(v)
}

fn add_optional_exec(v: Vec<(String, FileNamePattern)>, n: &str, p: &Option<String>) -> (r: Result<
    Vec<(String, FileNamePattern)>,
    Error,
>)
    ensures
        r is Ok <==> add_optional(Some(named_views(v@)), n@, opt_str(*p)) is Some,
        r matches Ok(w) ==> add_optional(Some(named_views(v@)), n@, opt_str(*p)) == Some(
            named_views(w@),
        ),
        r matches Err(e) ==> e is ConfigurationFailure,
{
    match p {
        None => Ok(v),
        Some(pat) => add_pattern_exec(v, n.to_string(), pat.as_str()),
    }
}

proof fn lemma_add_named_none(
    a: Option<Seq<NamedFormat>>,
    named: Seq<(Seq<char>, Seq<char>)>,
    k: int,
    m: int,
)
    requires
        0 <= k <= m,
        add_named(a, named, k) is None,
    ensures
        add_named(a, named, m) is None,
    decreases m - k,
{
    if k < m {
        lemma_add_named_none(a, named, k, m - 1);
    }
}

/// The named patterns of a testset, checked.
fn testset_patterns(ts: &TestSet) -> (r: Result<Vec<(String, FileNamePattern)>, Error>)
    ensures
        r is Ok <==> patterns_of(pattern_set_model(*ts)) is Some,
        r matches Ok(w) ==> patterns_of(pattern_set_model(*ts)) == Some(named_views(w@)),
        r matches Err(e) ==> e is ConfigurationFailure,
{
    let ghost m = pattern_set_model(*ts);
    let v: Vec<(String, FileNamePattern)> = Vec::new();
    assert(named_views(v@) =~= seq![]);
    let v = match add_optional_exec(v, "input", &ts.input_path_pattern) {
        Ok(v) => v,
        Err(e) => {
            proof {
                lemma_add_named_none(None, m.named, 0, m.named.len() as int);
            }
            return Err(e);
        },
    };
    let mut v = match add_optional_exec(v, "answer", &ts.answer_path_pattern) {
        Ok(v) => v,
        Err(e) => {
            proof {
                lemma_add_named_none(None, m.named, 0, m.named.len() as int);
            }
            return Err(e);
        },
    };
    let ghost start = add_optional(add_optional(Some(seq![]), "input"@, m.input), "answer"@, m.answer);
    let mut k: usize = 0;
    while k < ts.path_pattern.len()
        invariant
            k <= ts.path_pattern@.len(),
            m == pattern_set_model(*ts),
            start == add_optional(add_optional(Some(seq![]), "input"@, m.input), "answer"@, m.answer),
            add_named(start, m.named, k as int) == Some(named_views(v@)),
        decreases ts.path_pattern@.len() - k,
    {
        let pp = &ts.path_pattern[k];
        assert(m.named[k as int] == (pp.name@, pp.value@));
        let nm = chars_of(pp.name.as_str());
        if contains_exec(&nm, '/') || contains_exec(&nm, '\\') {
            proof {
                lemma_add_named_none(start, m.named, k + 1, m.named.len() as int);
            }
            return Err(configuration_failure("the name of a path pattern cannot hold a slash"));
        }
        v = match add_pattern_exec(v, pp.name.clone(), pp.value.as_str()) {
            Ok(w) => w,
            Err(e) => {
                proof {
                    lemma_add_named_none(start, m.named, k + 1, m.named.len() as int);
                }
                return Err(e);
            },
        };
        k += 1;
    }
    Ok(v)
}

fn test_path_exec(i: usize, name: &String) -> (r: String)
    ensures
        r@ == test_path(i as nat, name@),
{
    let mut out = chars_of("tests/");
    let mut d = decimal_exec(i);
    out.append(&mut d);
    let mut dot = chars_of(".");
    out.append(&mut dot);
    let mut nm = chars_of(name.as_str());
    out.append(&mut nm);
    string_of(&out)
}

pub open spec fn file_pair_views(v: Seq<(String, String)>) -> Seq<(Seq<char>, Seq<char>)> {
    v.map_values(|e: (String, String)| (e.0@, e.1@))
}

proof fn lemma_all_files_none(ts: Seq<PatternSetModel>, k: int, m: int)
    requires
        0 <= k <= m,
        all_files(ts, k) is None,
    ensures
        all_files(ts, m) is None,
    decreases m - k,
{
    if k < m {
        lemma_all_files_none(ts, k, m - 1);
    }
}

/// `(archive path, package path)` of every test file of the problem, in order: testsets in
/// order, tests in order, and for each test its patterns in the order `input`, `answer`, then
/// the `path-pattern`s.
pub fn test_files(problem: &Problem) -> (r: Result<Vec<(String, String)>, Error>)
    requires
        total_tests(judging_model(problem.judging)) < usize::MAX,
    ensures
        r is Ok <==> test_files_of(*problem) is Some,
        r matches Ok(v) ==> test_files_of(*problem) == Some(file_pair_views(v@)),
        r matches Err(e) ==> e is ConfigurationFailure,
{
    let ghost ts = problem_pattern_sets(*problem);
    let ghost jm = judging_model(problem.judging);
    let mut out: Vec<(String, String)> = Vec::new();
    let mut base: usize = 0;
    let mut si: usize = 0;
    assert(file_pair_views(out@) =~= seq![]);
    while si < problem.judging.testset.len()
        invariant
            si <= problem.judging.testset@.len(),
            ts == problem_pattern_sets(*problem),
            jm == judging_model(problem.judging),
            total_tests(jm) < usize::MAX,
            base as int == offset(jm, si as int),
            all_files(ts, si as int) == Some((file_pair_views(out@), base as nat)),
        decreases problem.judging.testset@.len() - si,
    {
        let t = &problem.judging.testset[si];
        assert(ts[si as int] == pattern_set_model(*t));
        assert(jm[si as int] == testset_model(*t));
        let pats = match testset_patterns(t) {
            Ok(p) => p,
            Err(e) => {
                proof {
                    lemma_all_files_none(ts, si + 1, ts.len() as int);
                }
                return Err(e);
            },
        };
        let ghost pv = named_views(pats@);
        let ghost start = file_pair_views(out@);
        proof {
            lemma_offset_mono(jm, si + 1, jm.len() as int);
        }
        let count = t.tests.len();
        let mut n: usize = 0;
        assert(start + files_of(pv, base as nat, 0) =~= start);
        while n < count
            invariant
                n <= count == t.tests@.len(),
                pv == named_views(pats@),
                base + count < usize::MAX,
                file_pair_views(out@) == start + files_of(pv, base as nat, n as nat),
            decreases count - n,
        {
            let ghost mid = file_pair_views(out@);
            let mut k: usize = 0;
            while k < pats.len()
                invariant
                    n < count,
                    k <= pats@.len(),
                    pv == named_views(pats@),
                    base + count < usize::MAX,
                    file_pair_views(out@) == mid + Seq::new(
                        k as nat,
                        |q: int| (test_path((base + n) as nat, pv[q].0), formatted(pv[q].1, (n + 1) as nat)),
                    ),
                decreases pats@.len() - k,
            {
                let ap = test_path_exec(base + n, &pats[k].0);
                let pp = pats[k].1.format(n + 1);
                let ghost before = file_pair_views(out@);
                assert(pv[k as int] == (pats@[k as int].0@, pats@[k as int].1.model()));
                let ghost apv = ap@;
                let ghost ppv = pp@;
                out.push((ap, pp));
                assert(file_pair_views(out@) =~= before.push((apv, ppv)));
                assert(file_pair_views(out@) =~= mid + Seq::new(
                    (k + 1) as nat,
                    |q: int| (test_path((base + n) as nat, pv[q].0), formatted(pv[q].1, (n + 1) as nat)),
                ));
                k += 1;
            }
            assert(file_pair_views(out@) =~= start + files_of(pv, base as nat, (n + 1) as nat));
            n += 1;
        }
        base = base + count;
        si += 1;
    }
    Ok(out)
}

/// `reader` gave `bytes` for the package path `path`.
pub open spec fn reads<F: Fn(&str) -> Result<Vec<u8>, Error>>(
    reader: F,
    path: Seq<char>,
    bytes: Seq<u8>,
) -> bool {
    exists|p: &str, b: Vec<u8>|
        p@ == path && b@ == bytes && #[trigger] reader.ensures((p,), Ok::<Vec<u8>, Error>(b))
}

/// `reader` gave the error `e` for some path.
pub open spec fn reader_failed<F: Fn(&str) -> Result<Vec<u8>, Error>>(reader: F, e: Error) -> bool {
    exists|p: &str| #[trigger] reader.ensures((p,), Err::<Vec<u8>, Error>(e))
}

/// An archive entry of a test file: it is not executable, and its blob holds the bytes that
/// the reader gave for the package path of a test file with that archive path.
pub open spec fn read_entry<F: Fn(&str) -> Result<Vec<u8>, Error>>(
    reader: F,
    files: Seq<(Seq<char>, Seq<char>)>,
    store: Seq<Seq<u8>>,
    e: (Seq<char>, ArchiveFile),
) -> bool {
    &&& !e.1.executable
    &&& e.1.handle.index < store.len()
    &&& exists|k: int|
        0 <= k < files.len() && (#[trigger] files[k]).0 == e.0 && reads(
            reader,
            files[k].1,
            store[e.1.handle.index as int],
        )
}

/// Reads every test file of the problem through `polygon_file_reader`, stores its bytes and
/// maps `tests/{index}.{name}` to them in the archive, not executable.
pub fn add_tests_to_archive<F: Fn(&str) -> Result<Vec<u8>, Error>>(
    polygon_file_reader: &F,
    archive_store: &mut ArchiveStore,
    problem_xml: &Problem,
    archive: &mut Archive,
) -> (r: Result<(), Error>)
    requires
        forall|p: &str| polygon_file_reader.requires((p,)),
        old(archive_store).wf(),
        old(archive).wf(),
        total_tests(judging_model(problem_xml.judging)) < usize::MAX,
    ensures
        final(archive_store).wf(),
        final(archive).wf(),
        test_files_of(*problem_xml) is None ==> (r matches Err(e) && e is ConfigurationFailure),
        test_files_of(*problem_xml) is None ==> final(archive).entries() == old(archive).entries(),
        test_files_of(*problem_xml) == Some(Seq::<(Seq<char>, Seq<char>)>::empty()) ==> r is Ok
            && final(archive).entries() == old(archive).entries(),
        r is Ok ==> test_files_of(*problem_xml) is Some,
        r matches Err(e) ==> e is ConfigurationFailure || reader_failed(*polygon_file_reader, e),
        r is Ok ==> (forall|k: int|
            0 <= k < test_files_of(*problem_xml).unwrap().len() ==> final(archive).has_path(
                #[trigger] test_files_of(*problem_xml).unwrap()[k].0,
            )),
        r is Ok ==> (forall|i: int|
            0 <= i < final(archive).entries().len() ==> old(archive).entries().contains(
                #[trigger] final(archive).entries()[i],
            ) || read_entry(
                *polygon_file_reader,
                test_files_of(*problem_xml).unwrap(),
                final(archive_store).contents(),
                final(archive).entries()[i],
            )),
{
    let files = match test_files(problem_xml) {
        Ok(f) => f,
        Err(e) => {
            return Err(e);
        },
    };
    let ghost fv = file_pair_views(files@);
    let ghost a0 = archive.entries();
    let mut k: usize = 0;
    while k < files.len()
        invariant
            k <= files@.len(),
            fv == file_pair_views(files@),
            fv.len() == files@.len(),
            test_files_of(*problem_xml) == Some(fv),
            forall|p: &str| polygon_file_reader.requires((p,)),
            archive_store.wf(),
            archive.wf(),
            a0 == old(archive).entries(),
            k == 0 ==> archive.entries() == a0,
            forall|q: int| 0 <= q < k ==> #[trigger] archive.has_path(fv[q].0),
            forall|i: int|
                0 <= i < archive.entries().len() ==> a0.contains(#[trigger] archive.entries()[i])
                    || read_entry(*polygon_file_reader, fv, archive_store.contents(), archive.entries()[i]),
        decreases files@.len() - k,
    {
        let path = files[k].1.as_str();
        let res = polygon_file_reader(path);
        let data = match res {
            Ok(d) => d,
            Err(e) => {
                assert(reader_failed(*polygon_file_reader, e));
                return Err(e);
            },
        };
        let ghost dg = data;
        assert(reads(*polygon_file_reader, fv[k as int].1, dg@));
        let ghost c0 = archive_store.contents();
        let h = archive_store.store_blob(data);
        let ghost c1 = archive_store.contents();
        let ghost e0 = archive.entries();
        proof {
            assert forall|i: int| 0 <= i < e0.len() implies a0.contains(#[trigger] e0[i])
                || read_entry(*polygon_file_reader, fv, c1, e0[i]) by {
                if !a0.contains(e0[i]) {
                    let idx = e0[i].1.handle.index as int;
                    assert(c1.subrange(0, c0.len() as int)[idx] == c1[idx]);
                }
            }
        }
        assert(fv[k as int].0 == files@[k as int].0@);
        match archive.add_file(files[k].0.clone(), h, false) {
            Ok(()) => {},
            Err(e) => {
                return Err(e);
            },
        }
        proof {
            let ne = (fv[k as int].0, ArchiveFile { handle: h, executable: false });
            assert(read_entry(*polygon_file_reader, fv, c1, ne));
            assert forall|i: int| 0 <= i < archive.entries().len() implies a0.contains(
                #[trigger] archive.entries()[i],
            ) || read_entry(*polygon_file_reader, fv, c1, archive.entries()[i]) by {
                if i < e0.len() && archive.entries()[i] == e0[i] {
                } else {
                    assert(archive.entries()[i] == ne);
                }
            }
        }
        k += 1;
    }
    Ok(())
}

} // verus!
