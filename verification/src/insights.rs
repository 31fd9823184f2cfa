//! Insights: aggregate statistics over the transcripts of all projects, with
//! the most active projects, the project clusters and the most used tools.
use vstd::prelude::*;
use crate::rank::{Ranked, sorted_desc, sort_desc, top, is_top};
use crate::slug::{cluster_key, cluster_of, prettify_slug, display_name_of};
use crate::keyed::{keys_distinct, has_key, seq_to_map, lemma_map_at, lemma_map_len};
use crate::text::{text_lt, str_lt, lemma_text_order};
use crate::textset::{TextSet, TextCounts};
use crate::transcript::{
    TranscriptEntry, BlockModel, EntryModel, is_message, message_date, date_cut_ok, assistant_blocks,
    is_tool_use, tool_use_count, named_use_count, lemma_named_uses_bounded, entry_is_turn,
    entry_is_assistant, block_is_tool_use, stamp_bytes,
};
use vstd::utf8::{encode_utf8, decode_utf8, encode_utf8_decode_utf8};
use vstd::string::StringSliceAdditionalSpecFns;
use crate::calendar::{civil_from_days, date_string, day_text, four_digit_day, lemma_date_text_order};

verus! {

/// Activity of one project.
pub struct ProjectStat {
    pub slug: String,
    pub display_name: String,
    pub message_count: u32,
    pub session_count: u32,
    pub tool_call_count: u32,
    pub last_activity: String,
}

/// Activity of one cluster of projects.
pub struct ClusterStat {
    pub key: String,
    pub project_count: u32,
    pub message_count: u32,
}

/// How often one tool was called.
pub struct ToolStat {
    pub name: String,
    pub count: u32,
}

/// The insights over all transcripts.
pub struct InsightsSummary {
    pub generated_at: String,
    pub total_messages: u32,
    pub total_sessions: u32,
    pub total_tool_calls: u32,
    pub active_days: u32,
    pub first_date: String,
    pub last_date: String,
    pub top_projects: Vec<ProjectStat>,
    pub project_clusters: Vec<ClusterStat>,
    pub tool_frequencies: Vec<ToolStat>,
    pub plans_count: u32,
    pub scheduled_tasks_count: u32,
    pub memory_files_count: u32,
}

impl Ranked for ProjectStat {
    open spec fn rank(&self) -> nat {
        self.message_count as nat
    }

    fn count_of(&self) -> (r: u32) {
        self.message_count
    }
}

impl Ranked for ClusterStat {
    open spec fn rank(&self) -> nat {
        self.message_count as nat
    }

    fn count_of(&self) -> (r: u32) {
        self.message_count
    }
}

impl Ranked for ToolStat {
    open spec fn rank(&self) -> nat {
        self.count as nat
    }

    fn count_of(&self) -> (r: u32) {
        self.count
    }
}

/// The slugs and message counts handed to `build_clusters`.
pub open spec fn slug_counts(projects: Seq<(String, u32)>) -> Seq<(Seq<char>, u32)> {
    projects.map_values(|p: (String, u32)| (p.0@, p.1))
}

/// The number of projects among `ps` in cluster `key`.
pub open spec fn cluster_size(ps: Seq<(Seq<char>, u32)>, key: Seq<char>) -> nat
    decreases ps.len(),
{
    if ps.len() == 0 {
        0
    } else {
        cluster_size(ps.drop_last(), key) + if cluster_of(ps.last().0) == key { 1nat } else { 0 }
    }
}

/// The number of messages of the projects among `ps` in cluster `key`.
pub open spec fn cluster_messages(ps: Seq<(Seq<char>, u32)>, key: Seq<char>) -> nat
    decreases ps.len(),
{
    if ps.len() == 0 {
        0
    } else {
        cluster_messages(ps.drop_last(), key) + if cluster_of(ps.last().0) == key {
            ps.last().1 as nat
        } else {
            0
        }
    }
}

proof fn lemma_cluster_prefix(ps: Seq<(Seq<char>, u32)>, j: int, key: Seq<char>)
    requires
        0 <= j <= ps.len(),
    ensures
        cluster_size(ps.take(j), key) <= cluster_size(ps, key),
        cluster_messages(ps.take(j), key) <= cluster_messages(ps, key),
    decreases ps.len() - j,
{
    if j < ps.len() {
        assert(ps.take(j + 1).drop_last() =~= ps.take(j));
        lemma_cluster_prefix(ps, j + 1, key);
    } else {
        assert(ps.take(j) =~= ps);
    }
}

/// The UTC date of the moment `secs` seconds after 1970-01-01T00:00:00 as
/// `YYYY-MM-DD`.
pub fn format_date(secs: i64) -> (r: String)
    ensures
        r@ == day_text(secs as int / 86400),
{
    let days: i64 = match secs.checked_div_euclid(86400) {
        Some(d) => d,
        None => 0,
    };
    let (y, m, d) = civil_from_days(days);
    date_string(y, m, d)
}

/// `r` is the table of clusters of the projects `ps`: each cluster once, with
/// the number of its projects and the sum of their message counts, largest
/// sum first, and every project's cluster in it.
pub open spec fn is_cluster_table(r: Seq<ClusterStat>, ps: Seq<(Seq<char>, u32)>) -> bool {
    &&& sorted_desc(r)
    &&& forall|a: int, b: int| 0 <= a < r.len() && 0 <= b < r.len() && a != b ==> r[a].key@ != r[b].key@
    &&& forall|a: int|
        0 <= a < r.len() ==> {
            &&& cluster_size(ps, #[trigger] r[a].key@) > 0
            &&& r[a].project_count == cluster_size(ps, r[a].key@)
            &&& r[a].message_count == cluster_messages(ps, r[a].key@)
        }
    &&& forall|j: int|
        #![trigger ps[j]]
        0 <= j < ps.len() ==> exists|a: int| 0 <= a < r.len() && #[trigger] r[a].key@ == cluster_of(ps[j].0)
}

/// Groups projects by `cluster_key` of their slug: for each cluster the
/// number of its projects and the sum of their message counts, largest sum
/// first.
#[verifier::spinoff_prover]
pub fn build_clusters(projects: &[(String, u32)]) -> (r: Vec<ClusterStat>)
    requires
        forall|key: Seq<char>|
            cluster_size(slug_counts(projects@), key) <= u32::MAX && cluster_messages(
                slug_counts(projects@),
                key,
            ) <= u32::MAX,
    ensures
        is_cluster_table(r@, slug_counts(projects@)),
{
    let ghost ps = slug_counts(projects@);
    let mut acc: Vec<ClusterStat> = Vec::new();
    let mut i: usize = 0;
    while i < projects.len()
        invariant
            i <= projects@.len(),
            ps == slug_counts(projects@),
            forall|key: Seq<char>| cluster_size(ps, key) <= u32::MAX && cluster_messages(ps, key) <= u32::MAX,
            forall|a: int, b: int| 0 <= a < acc@.len() && 0 <= b < acc@.len() && a != b ==> acc@[a].key@ != acc@[b].key@,
            forall|a: int|
                0 <= a < acc@.len() ==> {
                    &&& cluster_size(ps.take(i as int), #[trigger] acc@[a].key@) > 0
                    &&& acc@[a].project_count == cluster_size(ps.take(i as int), acc@[a].key@)
                    &&& acc@[a].message_count == cluster_messages(ps.take(i as int), acc@[a].key@)
                },
            forall|key: Seq<char>|
                cluster_size(ps.take(i as int), key) > 0 ==> exists|a: int| 0 <= a < acc@.len() && #[trigger] acc@[a].key@ == key,
        decreases projects@.len() - i,
    {
        let key = cluster_key(projects[i].0.as_str());
        let msgs = projects[i].1;
        let ghost old_acc = acc@;
        let ghost pre = ps.take(i as int);
        let ghost post = ps.take(i + 1);
        proof {
            assert(post.drop_last() =~= pre);
            assert(post.last() == ps[i as int]);
            assert(ps[i as int].0 == projects@[i as int].0@);
            assert(ps[i as int].1 == msgs);
            lemma_cluster_prefix(ps, i + 1, key@);
        }
        let mut a: usize = 0;
        while a < acc.len() && !crate::text::str_eq(acc[a].key.as_str(), key.as_str())
            invariant
                a <= acc@.len(),
                forall|b: int| 0 <= b < a ==> acc@[b].key@ != key@,
            decreases acc@.len() - a,
        {
            a = a + 1;
        }
        if a < acc.len() {
            let pc = acc[a].project_count + 1;
            let mc = acc[a].message_count + msgs;
            let k2 = acc[a].key.clone();
            acc.set(a, ClusterStat { key: k2, project_count: pc, message_count: mc });
        } else {
            acc.push(ClusterStat { key, project_count: 1, message_count: msgs });
        }
        proof {
            assert forall|b: int| 0 <= b < acc@.len() implies {
                &&& cluster_size(post, #[trigger] acc@[b].key@) > 0
                &&& acc@[b].project_count == cluster_size(post, acc@[b].key@)
                &&& acc@[b].message_count == cluster_messages(post, acc@[b].key@)
            } by {
                lemma_cluster_step(ps, i as int, acc@[b].key@);
                if b < old_acc.len() && b != a {
                    assert(acc@[b] == old_acc[b]);
                    if a < old_acc.len() {
                        assert(old_acc[a as int].key@ == key@);
                    }
                    assert(acc@[b].key@ != key@);
                } else if a < old_acc.len() {
                    assert(b == a);
                    assert(old_acc[a as int].key@ == key@);
                    assert(old_acc[a as int].project_count == cluster_size(pre, old_acc[a as int].key@));
                    assert(acc@[b].project_count == old_acc[a as int].project_count + 1);
                } else {
                    assert(b == old_acc.len());
                    assert(acc@[b].key@ == key@);
                    if cluster_size(pre, key@) > 0 {
                        let c = choose|c: int| 0 <= c < old_acc.len() && #[trigger] old_acc[c].key@ == key@;
                        assert(false);
                    }
                    lemma_cluster_empty(pre, key@);
                }
            }
            assert forall|k: Seq<char>| cluster_size(post, k) > 0 implies exists|b: int| 0 <= b < acc@.len() && #[trigger] acc@[b].key@ == k by {
                lemma_cluster_step(ps, i as int, k);
                if k == key@ {
                    assert(acc@[a as int].key@ == k);
                } else {
                    assert(cluster_size(pre, k) > 0);
                    let b = choose|b: int| 0 <= b < old_acc.len() && old_acc[b].key@ == k;
                    assert(acc@[b].key@ == k);
                }
            }
        }
        i = i + 1;
    }
    proof {
        assert(ps.take(i as int) =~= ps);
        assert(acc@.no_duplicates());
        assert forall|j: int| #![trigger projects@[j]] 0 <= j < projects@.len() implies exists|a: int|
            0 <= a < acc@.len() && #[trigger] acc@[a].key@ == cluster_of(projects@[j].0@) by {
            let k = cluster_of(projects@[j].0@);
            lemma_cluster_member(ps, j, k);
        }
    }
    let sorted = sort_desc(acc);
    proof {
        let ghost unsorted = acc@;
        assert forall|a: int| 0 <= a < sorted@.len() implies {
            &&& cluster_size(ps, #[trigger] sorted@[a].key@) > 0
            &&& sorted@[a].project_count == cluster_size(ps, sorted@[a].key@)
            &&& sorted@[a].message_count == cluster_messages(ps, sorted@[a].key@)
        } by {
            assert(sorted@.contains(sorted@[a]));
        }
        assert forall|a: int, b: int| 0 <= a < sorted@.len() && 0 <= b < sorted@.len() && a != b implies sorted@[a].key@ != sorted@[b].key@ by {
            assert(sorted@.contains(sorted@[a]));
            assert(sorted@.contains(sorted@[b]));
            let a2 = choose|x: int| 0 <= x < unsorted.len() && unsorted[x] == sorted@[a];
            let b2 = choose|x: int| 0 <= x < unsorted.len() && unsorted[x] == sorted@[b];
            assert(sorted@[a] != sorted@[b]);
        }
        assert forall|j: int| #![trigger ps[j]] 0 <= j < ps.len() implies exists|a: int|
            0 <= a < sorted@.len() && #[trigger] sorted@[a].key@ == cluster_of(ps[j].0) by {
            assert(ps[j].0 == projects@[j].0@);
            let k = cluster_of(projects@[j].0@);
            let b = choose|b: int| 0 <= b < unsorted.len() && #[trigger] unsorted[b].key@ == k;
            assert(unsorted.contains(unsorted[b]));
            let a = choose|a: int| 0 <= a < sorted@.len() && sorted@[a] == unsorted[b];
            assert(sorted@[a].key@ == k);
        }
    }
    sorted
}

proof fn lemma_cluster_step(ps: Seq<(Seq<char>, u32)>, i: int, key: Seq<char>)
    requires
        0 <= i < ps.len(),
    ensures
        cluster_size(ps.take(i + 1), key) == cluster_size(ps.take(i), key) + if cluster_of(ps[i].0) == key { 1nat } else { 0 },
        cluster_messages(ps.take(i + 1), key) == cluster_messages(ps.take(i), key) + if cluster_of(ps[i].0) == key { ps[i].1 as nat } else { 0 },
{
    assert(ps.take(i + 1).drop_last() =~= ps.take(i));
}

/// The sum of the project counts of a cluster table.
pub open spec fn clustered_projects(r: Seq<ClusterStat>) -> nat
    decreases r.len(),
{
    if r.len() == 0 {
        0
    } else {
        clustered_projects(r.drop_last()) + r.last().project_count as nat
    }
}

/// The sum of the message counts of a cluster table.
pub open spec fn clustered_messages(r: Seq<ClusterStat>) -> nat
    decreases r.len(),
{
    if r.len() == 0 {
        0
    } else {
        clustered_messages(r.drop_last()) + r.last().message_count as nat
    }
}

/// The sum of the message counts of the projects.
pub open spec fn total_of(ps: Seq<(Seq<char>, u32)>) -> nat
    decreases ps.len(),
{
    if ps.len() == 0 {
        0
    } else {
        total_of(ps.drop_last()) + ps.last().1 as nat
    }
}

spec fn size_sum(keys: Seq<Seq<char>>, ps: Seq<(Seq<char>, u32)>) -> nat
    decreases keys.len(),
{
    if keys.len() == 0 {
        0
    } else {
        size_sum(keys.drop_last(), ps) + cluster_size(ps, keys.last())
    }
}

spec fn message_sum(keys: Seq<Seq<char>>, ps: Seq<(Seq<char>, u32)>) -> nat
    decreases keys.len(),
{
    if keys.len() == 0 {
        0
    } else {
        message_sum(keys.drop_last(), ps) + cluster_messages(ps, keys.last())
    }
}

spec fn hits(keys: Seq<Seq<char>>, k: Seq<char>) -> nat
    decreases keys.len(),
{
    if keys.len() == 0 {
        0
    } else {
        hits(keys.drop_last(), k) + if keys.last() == k { 1nat } else { 0 }
    }
}

proof fn lemma_hits_once(keys: Seq<Seq<char>>, k: Seq<char>)
    requires
        keys.no_duplicates(),
        keys.contains(k),
    ensures
        hits(keys, k) == 1,
    decreases keys.len(),
{
    if keys.last() == k {
        lemma_hits_none(keys.drop_last(), k);
    } else {
        let j = choose|j: int| 0 <= j < keys.len() && keys[j] == k;
        assert(keys.drop_last()[j] == k);
        lemma_hits_once(keys.drop_last(), k);
    }
}

proof fn lemma_hits_none(keys: Seq<Seq<char>>, k: Seq<char>)
    requires
        !keys.contains(k),
    ensures
        hits(keys, k) == 0,
    decreases keys.len(),
{
    if keys.len() > 0 {
        assert(keys[keys.len() - 1] == keys.last());
        assert(!keys.drop_last().contains(k)) by {
            if keys.drop_last().contains(k) {
                let j = choose|j: int| 0 <= j < keys.len() - 1 && keys.drop_last()[j] == k;
                assert(keys[j] == k);
            }
        }
        lemma_hits_none(keys.drop_last(), k);
    }
}

proof fn lemma_sums_split(keys: Seq<Seq<char>>, ps: Seq<(Seq<char>, u32)>)
    requires
        ps.len() > 0,
    ensures
        size_sum(keys, ps) == size_sum(keys, ps.drop_last()) + hits(keys, cluster_of(ps.last().0)),
        message_sum(keys, ps) == message_sum(keys, ps.drop_last()) + hits(keys, cluster_of(ps.last().0)) * ps.last().1,
    decreases keys.len(),
{
    if keys.len() > 0 {
        lemma_sums_split(keys.drop_last(), ps);
        let k = keys.last();
        let c = cluster_of(ps.last().0);
        let v = ps.last().1 as int;
        let h0 = hits(keys.drop_last(), c) as int;
        let e = if k == c { 1int } else { 0int };
        assert(cluster_messages(ps, k) == cluster_messages(ps.drop_last(), k) + e * v);
        assert(cluster_size(ps, k) == cluster_size(ps.drop_last(), k) + e);
        assert(hits(keys, c) == h0 + e);
        assert((h0 + e) * v == h0 * v + e * v) by (nonlinear_arith);
        assert(message_sum(keys, ps) == message_sum(keys.drop_last(), ps) + cluster_messages(ps, k));
        assert(message_sum(keys, ps.drop_last()) == message_sum(keys.drop_last(), ps.drop_last()) + cluster_messages(ps.drop_last(), k));
        assert(message_sum(keys.drop_last(), ps) == message_sum(keys.drop_last(), ps.drop_last()) + h0 * v);
        assert(hits(keys, c) * ps.last().1 == (h0 + e) * v);
    } else {
        let v = ps.last().1 as int;
        assert(hits(keys, cluster_of(ps.last().0)) == 0);
        assert(0 * v == 0);
    }
}

proof fn lemma_sums_cover(keys: Seq<Seq<char>>, ps: Seq<(Seq<char>, u32)>)
    requires
        keys.no_duplicates(),
        forall|j: int| 0 <= j < ps.len() ==> keys.contains(#[trigger] cluster_of(ps[j].0)),
    ensures
        size_sum(keys, ps) == ps.len(),
        message_sum(keys, ps) == total_of(ps),
    decreases ps.len(),
{
    if ps.len() == 0 {
        lemma_sums_zero(keys, ps);
    } else {
        let rest = ps.drop_last();
        assert forall|j: int| 0 <= j < rest.len() implies keys.contains(#[trigger] cluster_of(rest[j].0)) by {
            assert(rest[j] == ps[j]);
        }
        lemma_sums_cover(keys, rest);
        lemma_sums_split(keys, ps);
        assert(keys.contains(cluster_of(ps[ps.len() - 1].0)));
        lemma_hits_once(keys, cluster_of(ps.last().0));
    }
}

proof fn lemma_sums_zero(keys: Seq<Seq<char>>, ps: Seq<(Seq<char>, u32)>)
    requires
        ps.len() == 0,
    ensures
        size_sum(keys, ps) == 0,
        message_sum(keys, ps) == 0,
    decreases keys.len(),
{
    if keys.len() > 0 {
        lemma_sums_zero(keys.drop_last(), ps);
    }
}

proof fn lemma_table_sums(r: Seq<ClusterStat>, ps: Seq<(Seq<char>, u32)>)
    requires
        forall|a: int|
            0 <= a < r.len() ==> {
                &&& r[a].project_count == cluster_size(ps, #[trigger] r[a].key@)
                &&& r[a].message_count == cluster_messages(ps, r[a].key@)
            },
    ensures
        clustered_projects(r) == size_sum(r.map_values(|c: ClusterStat| c.key@), ps),
        clustered_messages(r) == message_sum(r.map_values(|c: ClusterStat| c.key@), ps),
    decreases r.len(),
{
    if r.len() > 0 {
        let rest = r.drop_last();
        assert forall|a: int| 0 <= a < rest.len() implies {
            &&& rest[a].project_count == cluster_size(ps, #[trigger] rest[a].key@)
            &&& rest[a].message_count == cluster_messages(ps, rest[a].key@)
        } by {
            assert(rest[a] == r[a]);
        }
        lemma_table_sums(rest, ps);
        assert(r.map_values(|c: ClusterStat| c.key@).drop_last() =~= rest.map_values(|c: ClusterStat| c.key@));
        assert(r.last() == r[r.len() - 1]);
    }
}

/// The clusters split the projects: their project counts add up to the
/// number of projects, and their message counts to the projects' messages.
pub proof fn lemma_clusters_partition(r: Seq<ClusterStat>, ps: Seq<(Seq<char>, u32)>)
    requires
        is_cluster_table(r, ps),
    ensures
        clustered_projects(r) == ps.len(),
        clustered_messages(r) == total_of(ps),
{
    let keys = r.map_values(|c: ClusterStat| c.key@);
    lemma_table_sums(r, ps);
    assert(keys.no_duplicates()) by {
        assert forall|i: int, j: int| 0 <= i < keys.len() && 0 <= j < keys.len() && i != j implies keys[i] != keys[j] by {
            assert(keys[i] == r[i].key@ && keys[j] == r[j].key@);
        }
    }
    assert forall|j: int| 0 <= j < ps.len() implies keys.contains(#[trigger] cluster_of(ps[j].0)) by {
        let a = choose|a: int| 0 <= a < r.len() && #[trigger] r[a].key@ == cluster_of(ps[j].0);
        assert(keys[a] == cluster_of(ps[j].0));
    }
    lemma_sums_cover(keys, ps);
}

proof fn lemma_cluster_remove(ps: Seq<(Seq<char>, u32)>, k: int, key: Seq<char>)
    requires
        0 <= k < ps.len(),
    ensures
        cluster_size(ps, key) == cluster_size(ps.remove(k), key) + if cluster_of(ps[k].0) == key { 1nat } else { 0 },
        cluster_messages(ps, key) == cluster_messages(ps.remove(k), key) + if cluster_of(ps[k].0) == key {
            ps[k].1 as nat
        } else {
            0
        },
    decreases ps.len(),
{
    if k == ps.len() - 1 {
        assert(ps.remove(k) =~= ps.drop_last());
    } else {
        lemma_cluster_remove(ps.drop_last(), k, key);
        assert(ps.remove(k).drop_last() =~= ps.drop_last().remove(k));
        assert(ps.remove(k).last() == ps.last());
    }
}

proof fn lemma_cluster_permutation(ps: Seq<(Seq<char>, u32)>, q: Seq<(Seq<char>, u32)>, key: Seq<char>)
    requires
        ps.to_multiset() == q.to_multiset(),
    ensures
        cluster_size(ps, key) == cluster_size(q, key),
        cluster_messages(ps, key) == cluster_messages(q, key),
    decreases ps.len(),
{
    vstd::seq_lib::to_multiset_len(ps);
    vstd::seq_lib::to_multiset_len(q);
    if ps.len() == 0 {
        assert(q.len() == 0);
    } else {
        let x = ps.last();
        let rest = ps.drop_last();
        assert(ps =~= rest.push(x));
        assert(ps.contains(x)) by {
            assert(ps[ps.len() - 1] == x);
        }
        vstd::seq_lib::to_multiset_contains(ps, x);
        vstd::seq_lib::to_multiset_contains(q, x);
        assert(q.contains(x));
        let k = choose|k: int| 0 <= k < q.len() && q[k] == x;
        vstd::seq_lib::to_multiset_build(rest, x);
        vstd::seq_lib::to_multiset_remove(q, k);
        assert(q.remove(k).to_multiset() =~= rest.to_multiset());
        lemma_cluster_permutation(rest, q.remove(k), key);
        lemma_cluster_remove(q, k, key);
    }
}

proof fn lemma_cluster_cover_one(r: Seq<ClusterStat>, ps: Seq<(Seq<char>, u32)>, q: Seq<(Seq<char>, u32)>, j: int)
    requires
        is_cluster_table(r, ps),
        ps.to_multiset() == q.to_multiset(),
        0 <= j < q.len(),
    ensures
        exists|a: int| 0 <= a < r.len() && #[trigger] r[a].key@ == cluster_of(q[j].0),
{
    assert(q.contains(q[j]));
    vstd::seq_lib::to_multiset_contains(q, q[j]);
    vstd::seq_lib::to_multiset_contains(ps, q[j]);
    assert(ps.contains(q[j]));
    let i = choose|i: int| 0 <= i < ps.len() && ps[i] == q[j];
    assert(ps[i] == q[j]);
    let a = choose|a: int| 0 <= a < r.len() && #[trigger] r[a].key@ == cluster_of(ps[i].0);
    assert(0 <= a < r.len() && r[a].key@ == cluster_of(q[j].0));
}

/// The clusters do not depend on the order of the projects: a cluster table
/// of the projects is one of every reordering of them.
pub proof fn lemma_clusters_any_order(r: Seq<ClusterStat>, ps: Seq<(Seq<char>, u32)>, q: Seq<(Seq<char>, u32)>)
    requires
        is_cluster_table(r, ps),
        ps.to_multiset() == q.to_multiset(),
    ensures
        is_cluster_table(r, q),
{
    assert forall|a: int|
        0 <= a < r.len() implies {
            &&& cluster_size(q, #[trigger] r[a].key@) > 0
            &&& r[a].project_count == cluster_size(q, r[a].key@)
            &&& r[a].message_count == cluster_messages(q, r[a].key@)
        } by {
        lemma_cluster_permutation(ps, q, r[a].key@);
    }
    assert forall|j: int| #![trigger q[j]] 0 <= j < q.len() implies exists|a: int|
        0 <= a < r.len() && #[trigger] r[a].key@ == cluster_of(q[j].0) by {
        lemma_cluster_cover_one(r, ps, q, j);
    }
}

proof fn lemma_cluster_input_total(ps: Seq<(Seq<char>, ProjectModel)>)
    requires
        project_messages(ps) <= u32::MAX,
    ensures
        total_of(cluster_input(ps)) == project_messages(ps),
    decreases ps.len(),
{
    if ps.len() > 0 {
        assert(cluster_input(ps).drop_last() =~= cluster_input(ps.drop_last()));
        lemma_cluster_input_total(ps.drop_last());
    }
}

/// The clusters of the insights split all known projects and all counted
/// messages: their project counts add up to the number of projects, their
/// message counts to the total of messages.
pub proof fn lemma_clusters_cover_insights(m: InsightsModel, r: Seq<ClusterStat>)
    requires
        insights_invariant(m),
        is_cluster_table(r, cluster_input(m.projects)),
    ensures
        clustered_projects(r) == m.projects.len(),
        clustered_messages(r) == m.total_messages,
{
    lemma_clusters_partition(r, cluster_input(m.projects));
    lemma_cluster_input_total(m.projects);
}

proof fn lemma_cluster_empty(ps: Seq<(Seq<char>, u32)>, key: Seq<char>)
    requires
        cluster_size(ps, key) == 0,
    ensures
        cluster_messages(ps, key) == 0,
    decreases ps.len(),
{
    if ps.len() > 0 {
        lemma_cluster_empty(ps.drop_last(), key);
    }
}

proof fn lemma_cluster_member(ps: Seq<(Seq<char>, u32)>, j: int, key: Seq<char>)
    requires
        0 <= j < ps.len(),
        cluster_of(ps[j].0) == key,
    ensures
        cluster_size(ps, key) > 0,
    decreases ps.len(),
{
    if j < ps.len() - 1 {
        lemma_cluster_member(ps.drop_last(), j, key);
    }
}

/// `st` reports project `slug` with activity `p`.
pub open spec fn reports_project(st: ProjectStat, slug: Seq<char>, p: ProjectModel) -> bool {
    &&& st.slug@ == slug
    &&& st.display_name@ == display_name_of(slug)
    &&& st.message_count == p.message_count
    &&& st.session_count == p.sessions.len()
    &&& st.tool_call_count == p.tool_call_count
    &&& st.last_activity@ == p.last_activity
}

/// `st` reports one of the projects `ps`.
pub open spec fn is_reported(st: ProjectStat, ps: Seq<(Seq<char>, ProjectModel)>) -> bool {
    exists|j: int| 0 <= j < ps.len() && reports_project(st, ps[j].0, ps[j].1)
}

/// `out` reports `k` of the projects `ps` with the most messages, most first
/// (all of them when there are fewer): each project at most once, and no
/// project left out has more messages than one reported.
pub open spec fn is_top_projects(out: Seq<ProjectStat>, ps: Seq<(Seq<char>, ProjectModel)>, k: nat) -> bool {
    &&& out.len() == if ps.len() < k { ps.len() } else { k }
    &&& sorted_desc(out)
    &&& forall|a: int, b: int| 0 <= a < out.len() && 0 <= b < out.len() && a != b ==> out[a].slug@ != out[b].slug@
    &&& forall|a: int| 0 <= a < out.len() ==> #[trigger] is_reported(out[a], ps)
    &&& forall|j: int, a: int|
        #![trigger ps[j], out[a]]
        0 <= j < ps.len() && 0 <= a < out.len() && (forall|b: int| 0 <= b < out.len() ==> #[trigger] out[b].slug@ != ps[j].0)
            ==> ps[j].1.message_count <= out[a].message_count
}

/// `out` reports `k` of the tools of `counts` with the most calls, most first
/// (all of them when there are fewer): each tool at most once, and no tool
/// left out has more calls than one reported.
pub open spec fn is_top_tools(out: Seq<ToolStat>, counts: Map<Seq<char>, u32>, k: nat) -> bool {
    &&& out.len() == if counts.dom().len() < k { counts.dom().len() } else { k }
    &&& sorted_desc(out)
    &&& forall|a: int, b: int| 0 <= a < out.len() && 0 <= b < out.len() && a != b ==> out[a].name@ != out[b].name@
    &&& forall|a: int|
        0 <= a < out.len() ==> counts.contains_key(#[trigger] out[a].name@) && out[a].count == counts[out[a].name@]
    &&& forall|n: Seq<char>, a: int|
        #![trigger counts.contains_key(n), out[a]]
        counts.contains_key(n) && 0 <= a < out.len() && (forall|b: int| 0 <= b < out.len() ==> #[trigger] out[b].name@ != n)
            ==> counts[n] <= out[a].count
}

/// The slugs and message counts of the projects, as `build_clusters` takes
/// them.
pub open spec fn cluster_input(ps: Seq<(Seq<char>, ProjectModel)>) -> Seq<(Seq<char>, u32)> {
    ps.map_values(|p: (Seq<char>, ProjectModel)| (p.0, p.1.message_count as u32))
}

/// What the insights hold of one project.
pub struct ProjectModel {
    pub message_count: nat,
    pub tool_call_count: nat,
    pub sessions: Set<Seq<char>>,
    pub last_activity: Seq<char>,
}

/// What the insights hold while transcripts are read.
pub struct InsightsModel {
    pub total_messages: nat,
    pub total_tool_calls: nat,
    pub sessions: Set<Seq<char>>,
    pub active_days: Set<Seq<char>>,
    /// The earliest date, or empty before the first message.
    pub first_date: Seq<char>,
    /// The latest date, or empty before the first message.
    pub last_date: Seq<char>,
    pub tool_counts: Map<Seq<char>, u32>,
    /// The projects by slug, in the order they were first seen.
    pub projects: Seq<(Seq<char>, ProjectModel)>,
}

/// A project without activity yet.
pub open spec fn empty_project() -> ProjectModel {
    ProjectModel {
        message_count: 0,
        tool_call_count: 0,
        sessions: Set::empty(),
        last_activity: Seq::empty(),
    }
}

/// The insights with project `slug` known (added without activity if new).
pub open spec fn with_project(m: InsightsModel, slug: Seq<char>) -> InsightsModel {
    if has_key(m.projects, slug) {
        m
    } else {
        InsightsModel { projects: m.projects.push((slug, empty_project())), ..m }
    }
}

/// The position of project `slug`.
pub open spec fn project_index(ps: Seq<(Seq<char>, ProjectModel)>, slug: Seq<char>) -> int {
    choose|i: int| 0 <= i < ps.len() && ps[i].0 == slug
}

/// A project after one more message of `session` on `date` with `uses` tool calls.
pub open spec fn project_after(p: ProjectModel, session: Seq<char>, date: Seq<char>, uses: nat) -> ProjectModel {
    ProjectModel {
        message_count: p.message_count + 1,
        tool_call_count: p.tool_call_count + uses,
        sessions: p.sessions.insert(session),
        last_activity: if text_lt(p.last_activity, date) { date } else { p.last_activity },
    }
}

/// Tool call counts after the tool calls among `blocks`.
pub open spec fn tool_counts_after(counts: Map<Seq<char>, u32>, blocks: Seq<BlockModel>) -> Map<Seq<char>, u32> {
    Map::new(
        |n: Seq<char>| counts.contains_key(n) || named_use_count(blocks, n) > 0,
        |n: Seq<char>|
            ((if counts.contains_key(n) { counts[n] as nat } else { 0nat }) + named_use_count(blocks, n)) as u32,
    )
}

/// The insights after record `e` of session `session` of project `slug`
/// counted as a message.
pub open spec fn with_message(m: InsightsModel, slug: Seq<char>, session: Seq<char>, e: EntryModel) -> InsightsModel {
    let m1 = with_project(m, slug);
    let i = project_index(m1.projects, slug);
    let date = message_date(e);
    let blocks = assistant_blocks(e);
    let uses = tool_use_count(blocks);
    InsightsModel {
        total_messages: m1.total_messages + 1,
        total_tool_calls: m1.total_tool_calls + uses,
        sessions: m1.sessions.insert(session),
        active_days: m1.active_days.insert(date),
        first_date: if m1.first_date.len() == 0 || text_lt(date, m1.first_date) { date } else { m1.first_date },
        last_date: if m1.last_date.len() == 0 || text_lt(m1.last_date, date) { date } else { m1.last_date },
        tool_counts: tool_counts_after(m1.tool_counts, blocks),
        projects: m1.projects.update(i, (slug, project_after(m1.projects[i].1, session, date, uses))),
    }
}

/// Counting record `e` of project `slug` is refused: its date cannot be cut
/// off its timestamp (slicing the text there would panic), or a count would
/// exceed `u32::MAX`, or `slug` is new and `u32::MAX` projects are known.
pub open spec fn refuses(m: InsightsModel, slug: Seq<char>, e: EntryModel) -> bool {
    is_message(e) && (!date_cut_ok(e) || m.total_messages + 1 > u32::MAX || m.total_tool_calls
        + tool_use_count(assistant_blocks(e)) > u32::MAX || (!has_key(m.projects, slug)
        && m.projects.len() >= u32::MAX))
}

/// What became of one transcript record.
pub enum EntryOutcome {
    /// Counted as a message.
    Counted,
    /// Not a message: not a turn, or without a usable timestamp.
    Skipped,
    /// A message that cannot be counted: see `refuses`.
    Refused,
}

/// The sum of the message counts of the projects.
pub open spec fn project_messages(ps: Seq<(Seq<char>, ProjectModel)>) -> nat
    decreases ps.len(),
{
    if ps.len() == 0 {
        0
    } else {
        project_messages(ps.drop_last()) + ps.last().1.message_count
    }
}

/// The sum of the tool call counts of the projects.
pub open spec fn project_tool_calls(ps: Seq<(Seq<char>, ProjectModel)>) -> nat
    decreases ps.len(),
{
    if ps.len() == 0 {
        0
    } else {
        project_tool_calls(ps.drop_last()) + ps.last().1.tool_call_count
    }
}

/// What holds of the insights at every step.
pub open spec fn insights_invariant(m: InsightsModel) -> bool {
    &&& keys_distinct(m.projects)
    &&& m.projects.len() <= u32::MAX
    &&& project_messages(m.projects) == m.total_messages
    &&& project_tool_calls(m.projects) == m.total_tool_calls
    &&& m.total_messages <= u32::MAX
    &&& m.total_tool_calls <= u32::MAX
    &&& m.sessions.finite() && m.sessions.len() <= m.total_messages
    &&& m.active_days.finite() && m.active_days.len() <= m.total_messages
    &&& forall|n: Seq<char>| #[trigger] m.tool_counts.contains_key(n) ==> m.tool_counts[n] <= m.total_tool_calls
    &&& forall|i: int|
        0 <= i < m.projects.len() ==> {
            &&& (#[trigger] m.projects[i]).1.sessions.finite()
            &&& m.projects[i].1.sessions.len() <= m.projects[i].1.message_count
        }
    &&& forall|d: Seq<char>| #[trigger] m.active_days.contains(d) ==> d.len() > 0
    &&& (m.active_days.is_empty() <==> m.first_date.len() == 0)
    &&& (m.active_days.is_empty() <==> m.last_date.len() == 0)
    &&& !m.active_days.is_empty() ==> m.active_days.contains(m.first_date) && m.active_days.contains(m.last_date)
    &&& forall|d: Seq<char>| #[trigger] m.active_days.contains(d) ==> !text_lt(d, m.first_date) && !text_lt(m.last_date, d)
}

/// One project while transcripts are read.
struct ProjectAcc {
    slug: String,
    message_count: u32,
    tool_call_count: u32,
    sessions: TextSet,
    last_activity: String,
}

spec fn project_view(p: ProjectAcc) -> (Seq<char>, ProjectModel) {
    (p.slug@, ProjectModel {
        message_count: p.message_count as nat,
        tool_call_count: p.tool_call_count as nat,
        sessions: p.sessions@,
        last_activity: p.last_activity@,
    })
}

/// The insights while transcripts are read.
pub struct InsightsAccumulator {
    total_messages: u32,
    total_tool_calls: u32,
    sessions: TextSet,
    active_days: TextSet,
    first_date: String,
    last_date: String,
    tool_counts: TextCounts,
    projects: Vec<ProjectAcc>,
}

impl View for InsightsAccumulator {
    type V = InsightsModel;

    closed spec fn view(&self) -> InsightsModel {
        InsightsModel {
            total_messages: self.total_messages as nat,
            total_tool_calls: self.total_tool_calls as nat,
            sessions: self.sessions@,
            active_days: self.active_days@,
            first_date: self.first_date@,
            last_date: self.last_date@,
            tool_counts: self.tool_counts@,
            projects: self.projects@.map_values(|p: ProjectAcc| project_view(p)),
        }
    }
}

/// The date of a message is the non-empty text of the first 10 bytes of its
/// timestamp.
pub proof fn lemma_message_date(e: EntryModel)
    requires
        is_message(e),
        date_cut_ok(e),
    ensures
        encode_utf8(message_date(e)) == stamp_bytes(e).subrange(0, 10),
        message_date(e).len() > 0,
{
    let bytes = stamp_bytes(e);
    vstd::utf8::encode_utf8_valid_utf8(e.timestamp.unwrap());
    vstd::utf8::valid_utf8_split(bytes, 10);
    vstd::utf8::decode_utf8_encode_utf8(bytes.subrange(0, 10));
    if message_date(e).len() == 0 {
        assert(encode_utf8(message_date(e)) =~= Seq::<u8>::empty());
    }
}

/// Making a project known keeps the invariant.
pub proof fn lemma_with_project_invariant(m: InsightsModel, slug: Seq<char>)
    requires
        insights_invariant(m),
        has_key(m.projects, slug) || m.projects.len() < u32::MAX,
    ensures
        insights_invariant(with_project(m, slug)),
        has_key(with_project(m, slug).projects, slug),
{
    if !has_key(m.projects, slug) {
        let ps = m.projects.push((slug, empty_project()));
        crate::keyed::lemma_map_push(m.projects, slug, empty_project());
        assert(ps.drop_last() =~= m.projects);
        assert(ps[m.projects.len() as int].0 == slug);
        let m1 = with_project(m, slug);
        assert forall|i: int| 0 <= i < m1.projects.len() implies {
            &&& (#[trigger] m1.projects[i]).1.sessions.finite()
            &&& m1.projects[i].1.sessions.len() <= m1.projects[i].1.message_count
        } by {
            if i < m.projects.len() {
                assert(m1.projects[i] == m.projects[i]);
            }
        }
    }
}

/// Counting a message keeps the invariant.
#[verifier::spinoff_prover]
pub proof fn lemma_with_message_invariant(m: InsightsModel, slug: Seq<char>, session: Seq<char>, e: EntryModel)
    requires
        insights_invariant(m),
        is_message(e),
        !refuses(m, slug, e),
    ensures
        insights_invariant(with_message(m, slug, session, e)),
{
    lemma_with_project_invariant(m, slug);
    lemma_message_date(e);
    let m1 = with_project(m, slug);
    let i = project_index(m1.projects, slug);
    let date = message_date(e);
    let blocks = assistant_blocks(e);
    let uses = tool_use_count(blocks);
    let p = project_after(m1.projects[i].1, session, date, uses);
    let r = with_message(m, slug, session, e);
    assert(0 <= i < m1.projects.len() && m1.projects[i].0 == slug);
    crate::keyed::lemma_map_update(m1.projects, i, p);
    lemma_sums_update(m1.projects, i, (slug, p));
    assert forall|n: Seq<char>| #[trigger] r.tool_counts.contains_key(n) implies r.tool_counts[n] <= r.total_tool_calls by {
        lemma_named_uses_bounded(blocks, n);
    }
    assert forall|j: int| 0 <= j < r.projects.len() implies {
        &&& (#[trigger] r.projects[j]).1.sessions.finite()
        &&& r.projects[j].1.sessions.len() <= r.projects[j].1.message_count
    } by {
        if j != i {
            assert(r.projects[j] == m1.projects[j]);
        } else {
            assert(m1.projects[i].1.sessions.finite());
        }
    }
    assert forall|d: Seq<char>| #[trigger] r.active_days.contains(d) implies !text_lt(d, r.first_date) && !text_lt(r.last_date, d) by {
        lemma_text_order(d, date, m1.first_date);
        lemma_text_order(m1.last_date, date, d);
        lemma_text_order(date, m1.first_date, d);
        lemma_text_order(d, m1.last_date, date);
        if m1.active_days.contains(d) {
            assert(!text_lt(d, m1.first_date) && !text_lt(m1.last_date, d));
        }
    }
    assert(r.active_days.contains(date));
}

/// When every active day is the text of a day with a four-digit year, the
/// first date is that of the earliest such day and the last date that of the
/// latest.
pub proof fn lemma_insights_dates_chronological(m: InsightsModel)
    requires
        insights_invariant(m),
        !m.active_days.is_empty(),
        forall|d: Seq<char>| #[trigger] m.active_days.contains(d) ==> exists|n: int| four_digit_day(n) && d == #[trigger] day_text(n),
    ensures
        exists|d1: int, d2: int|
            {
                &&& four_digit_day(d1) && m.first_date == day_text(d1)
                &&& four_digit_day(d2) && m.last_date == day_text(d2)
                &&& forall|n: int| four_digit_day(n) && #[trigger] m.active_days.contains(day_text(n)) ==> d1 <= n && n <= d2
            },
{
    assert(m.active_days.contains(m.first_date) && m.active_days.contains(m.last_date));
    let d1 = choose|n: int| four_digit_day(n) && m.first_date == #[trigger] day_text(n);
    let d2 = choose|n: int| four_digit_day(n) && m.last_date == #[trigger] day_text(n);
    assert forall|n: int| four_digit_day(n) && #[trigger] m.active_days.contains(day_text(n)) implies d1 <= n && n <= d2 by {
        lemma_date_text_order(n, d1);
        lemma_date_text_order(d2, n);
    }
}

/// Counting a message of project `slug`, whatever its session, leaves that
/// project's last activity no earlier than the message's date; it moves only
/// forward, to that date or nowhere; the other projects are unchanged. So a
/// project's last activity is the latest date of all its messages.
pub proof fn lemma_last_activity_step(m: InsightsModel, slug: Seq<char>, session: Seq<char>, e: EntryModel)
    requires
        insights_invariant(m),
        is_message(e),
        !refuses(m, slug, e),
    ensures
        ({
            let m2 = with_message(m, slug, session, e);
            &&& forall|j: int|
                0 <= j < m2.projects.len() && m2.projects[j].0 == slug ==> !text_lt(
                    m2.projects[j].1.last_activity,
                    message_date(e),
                )
            &&& forall|j: int|
                0 <= j < m.projects.len() && m.projects[j].0 == slug ==> {
                    &&& m2.projects[j].0 == slug
                    &&& !text_lt(m2.projects[j].1.last_activity, m.projects[j].1.last_activity)
                    &&& (m2.projects[j].1.last_activity == m.projects[j].1.last_activity
                        || m2.projects[j].1.last_activity == message_date(e))
                }
            &&& forall|j: int|
                0 <= j < m.projects.len() && m.projects[j].0 != slug ==> m2.projects[j] == m.projects[j]
        }),
{
    lemma_with_project_invariant(m, slug);
    let m1 = with_project(m, slug);
    let i = project_index(m1.projects, slug);
    let m2 = with_message(m, slug, session, e);
    let date = message_date(e);
    assert(0 <= i < m1.projects.len() && m1.projects[i].0 == slug);
    let old_last = m1.projects[i].1.last_activity;
    let new_last = m2.projects[i].1.last_activity;
    lemma_text_order(old_last, date, old_last);
    lemma_text_order(date, old_last, date);
    assert(!text_lt(new_last, date));
    assert(!text_lt(new_last, old_last));
    assert forall|j: int| 0 <= j < m2.projects.len() && m2.projects[j].0 == slug implies !text_lt(
        m2.projects[j].1.last_activity,
        date,
    ) by {
        if j != i {
            assert(m2.projects[j] == m1.projects[j]);
        }
    }
    assert forall|j: int| 0 <= j < m.projects.len() && m.projects[j].0 == slug implies {
        &&& m2.projects[j].0 == slug
        &&& !text_lt(m2.projects[j].1.last_activity, m.projects[j].1.last_activity)
        &&& (m2.projects[j].1.last_activity == m.projects[j].1.last_activity
            || m2.projects[j].1.last_activity == date)
    } by {
        assert(has_key(m.projects, slug));
        assert(m1 == m);
        assert(m1.projects[j].0 == slug);
    }
    assert forall|j: int| 0 <= j < m.projects.len() && m.projects[j].0 != slug implies m2.projects[j] == m.projects[j] by {
        assert(m1.projects[j] == m.projects[j]);
        assert(j != i);
    }
}

proof fn lemma_project_index(ps: Seq<(Seq<char>, ProjectModel)>, i: int, slug: Seq<char>)
    requires
        keys_distinct(ps),
        0 <= i < ps.len(),
        ps[i].0 == slug,
    ensures
        project_index(ps, slug) == i,
{
    let k = project_index(ps, slug);
    assert(0 <= k < ps.len() && ps[k].0 == slug);
}

proof fn lemma_cluster_bounds(ps: Seq<(Seq<char>, ProjectModel)>, key: Seq<char>)
    requires
        project_messages(ps) <= u32::MAX,
    ensures
        cluster_size(cluster_input(ps), key) <= ps.len(),
        cluster_messages(cluster_input(ps), key) <= project_messages(ps),
    decreases ps.len(),
{
    if ps.len() > 0 {
        assert(cluster_input(ps).drop_last() =~= cluster_input(ps.drop_last()));
        lemma_cluster_bounds(ps.drop_last(), key);
    }
}

proof fn lemma_top_projects(out: Seq<ProjectStat>, all: Seq<ProjectStat>, ps: Seq<(Seq<char>, ProjectModel)>, k: nat)
    requires
        keys_distinct(ps),
        all.len() == ps.len(),
        forall|j: int| 0 <= j < all.len() ==> reports_project(#[trigger] all[j], ps[j].0, ps[j].1),
        is_top(out, all, k),
    ensures
        is_top_projects(out, ps, k),
{
    assert forall|a: int, b: int| 0 <= a < out.len() && 0 <= b < out.len() && a != b implies out[a].slug@ != out[b].slug@ by {
        assert(out.contains(out[a]) && out.contains(out[b]));
        let ja = choose|j: int| 0 <= j < all.len() && all[j] == out[a];
        let jb = choose|j: int| 0 <= j < all.len() && all[j] == out[b];
        assert(reports_project(all[ja], ps[ja].0, ps[ja].1));
        assert(reports_project(all[jb], ps[jb].0, ps[jb].1));
    }
    assert forall|a: int| 0 <= a < out.len() implies #[trigger] is_reported(out[a], ps) by {
        assert(out.contains(out[a]));
        let ja = choose|j: int| 0 <= j < all.len() && all[j] == out[a];
        assert(reports_project(all[ja], ps[ja].0, ps[ja].1));
        assert(0 <= ja < ps.len() && reports_project(out[a], ps[ja].0, ps[ja].1));
    }
    assert forall|j: int, a: int|
        #![trigger ps[j], out[a]]
        0 <= j < ps.len() && 0 <= a < out.len() && (forall|b: int| 0 <= b < out.len() ==> #[trigger] out[b].slug@ != ps[j].0)
        implies ps[j].1.message_count <= out[a].message_count by {
        assert(reports_project(all[j], ps[j].0, ps[j].1));
        assert(all.contains(all[j]));
        if out.contains(all[j]) {
            let b = choose|b: int| 0 <= b < out.len() && out[b] == all[j];
            assert(out[b].slug@ != ps[j].0);
        }
    }
}

proof fn lemma_top_tools(out: Seq<ToolStat>, all: Seq<ToolStat>, counts: Map<Seq<char>, u32>, k: nat)
    requires
        forall|a: int, b: int| 0 <= a < all.len() && 0 <= b < all.len() && a != b ==> all[a].name@ != all[b].name@,
        forall|a: int| 0 <= a < all.len() ==> counts.contains_key(#[trigger] all[a].name@) && all[a].count == counts[all[a].name@],
        forall|n: Seq<char>| #[trigger] counts.contains_key(n) ==> exists|a: int| 0 <= a < all.len() && #[trigger] all[a].name@ == n,
        all.len() == counts.dom().len(),
        is_top(out, all, k),
    ensures
        is_top_tools(out, counts, k),
{
    assert forall|a: int, b: int| 0 <= a < out.len() && 0 <= b < out.len() && a != b implies out[a].name@ != out[b].name@ by {
        assert(out.contains(out[a]) && out.contains(out[b]));
        let ja = choose|j: int| 0 <= j < all.len() && all[j] == out[a];
        let jb = choose|j: int| 0 <= j < all.len() && all[j] == out[b];
    }
    assert forall|a: int| 0 <= a < out.len() implies counts.contains_key(#[trigger] out[a].name@) && out[a].count == counts[out[a].name@] by {
        assert(out.contains(out[a]));
        let ja = choose|j: int| 0 <= j < all.len() && all[j] == out[a];
        assert(counts.contains_key(all[ja].name@));
    }
    assert forall|n: Seq<char>, a: int|
        #![trigger counts.contains_key(n), out[a]]
        counts.contains_key(n) && 0 <= a < out.len() && (forall|b: int| 0 <= b < out.len() ==> #[trigger] out[b].name@ != n)
        implies counts[n] <= out[a].count by {
        let c = choose|c: int| 0 <= c < all.len() && #[trigger] all[c].name@ == n;
        assert(counts.contains_key(all[c].name@));
        assert(all.contains(all[c]));
        if out.contains(all[c]) {
            let b = choose|b: int| 0 <= b < out.len() && out[b] == all[c];
            assert(out[b].name@ != n);
        }
    }
}

proof fn lemma_sums_update(ps: Seq<(Seq<char>, ProjectModel)>, i: int, x: (Seq<char>, ProjectModel))
    requires
        0 <= i < ps.len(),
    ensures
        project_messages(ps.update(i, x)) + ps[i].1.message_count == project_messages(ps) + x.1.message_count,
        project_tool_calls(ps.update(i, x)) + ps[i].1.tool_call_count == project_tool_calls(ps) + x.1.tool_call_count,
    decreases ps.len(),
{
    if i == ps.len() - 1 {
        assert(ps.update(i, x).drop_last() =~= ps.drop_last());
    } else {
        lemma_sums_update(ps.drop_last(), i, x);
        assert(ps.update(i, x).drop_last() =~= ps.drop_last().update(i, x));
    }
}

proof fn lemma_project_within_sums(ps: Seq<(Seq<char>, ProjectModel)>, i: int)
    requires
        0 <= i < ps.len(),
    ensures
        ps[i].1.message_count <= project_messages(ps),
        ps[i].1.tool_call_count <= project_tool_calls(ps),
    decreases ps.len(),
{
    if i < ps.len() - 1 {
        lemma_project_within_sums(ps.drop_last(), i);
    }
}

pub(crate) fn tool_uses_of(e: &TranscriptEntry) -> (r: usize)
    ensures
        r == tool_use_count(assistant_blocks(e@)),
{
    if !entry_is_assistant(e) {
        return 0;
    }
    match &e.blocks {
        Some(bs) => {
            let ghost blocks = bs@.map_values(|b: crate::transcript::ContentBlock| b@);
            let mut n: usize = 0;
            let mut j: usize = 0;
            assert(blocks.take(0) =~= Seq::<BlockModel>::empty());
            while j < bs.len()
                invariant
                    j <= bs@.len(),
                    blocks == bs@.map_values(|b: crate::transcript::ContentBlock| b@),
                    n == tool_use_count(blocks.take(j as int)),
                    n <= j,
                decreases bs@.len() - j,
            {
                proof {
                    lemma_tool_uses_prefix(blocks, j as int);
                }
                if block_is_tool_use(&bs[j]) {
                    n = n + 1;
                }
                j = j + 1;
            }
            assert(blocks.take(j as int) =~= blocks);
            n
        },
        None => 0,
    }
}

/// Tool call counts after the named tool calls of `e`.
fn count_tool_calls(counts: &mut TextCounts, e: &TranscriptEntry, Ghost(bound): Ghost<nat>)
    requires
        old(counts).wf(),
        forall|n: Seq<char>| #[trigger] old(counts)@.contains_key(n) ==> old(counts)@[n] <= bound,
        bound + tool_use_count(assistant_blocks(e@)) <= u32::MAX,
    ensures
        final(counts).wf(),
        final(counts)@ == tool_counts_after(old(counts)@, assistant_blocks(e@)),
{
    let ghost c0 = counts@;
    let is_assistant = entry_is_assistant(e);
    if is_assistant {
        if let Some(bs) = &e.blocks {
            let ghost blocks = bs@.map_values(|b: crate::transcript::ContentBlock| b@);
            assert(blocks == assistant_blocks(e@));
            let mut j: usize = 0;
            assert(blocks.take(0) =~= Seq::<BlockModel>::empty());
            assert(counts@ =~= tool_counts_after(c0, blocks.take(0)));
            while j < bs.len()
                invariant
                    j <= bs@.len(),
                    blocks == bs@.map_values(|b: crate::transcript::ContentBlock| b@),
                    counts.wf(),
                    counts@ == tool_counts_after(c0, blocks.take(j as int)),
                    forall|n: Seq<char>| #[trigger] c0.contains_key(n) ==> c0[n] <= bound,
                    bound + tool_use_count(blocks) <= u32::MAX,
                decreases bs@.len() - j,
            {
                proof {
                    lemma_tool_uses_prefix(blocks, j as int);
                    lemma_named_uses_bounded(blocks.take(j as int), bs@[j as int].name.unwrap()@);
                }
                let b = &bs[j];
                if block_is_tool_use(b) {
                    if let Some(name) = &b.name {
                        proof {
                            lemma_named_uses_bounded(blocks.take(j as int), name@);
                        }
                        counts.add(name.as_str(), 1);
                    }
                }
                proof {
                    assert(counts@ =~= tool_counts_after(c0, blocks.take(j + 1)));
                }
                j = j + 1;
            }
            assert(blocks.take(j as int) =~= blocks);
        } else {
            assert(counts@ =~= tool_counts_after(c0, assistant_blocks(e@)));
        }
    } else {
        assert(counts@ =~= tool_counts_after(c0, assistant_blocks(e@)));
    }
}

proof fn lemma_tool_uses_prefix(blocks: Seq<BlockModel>, j: int)
    requires
        0 <= j < blocks.len(),
    ensures
        tool_use_count(blocks.take(j + 1)) == tool_use_count(blocks.take(j)) + if is_tool_use(blocks[j]) { 1nat } else { 0 },
        forall|n: Seq<char>| #[trigger] named_use_count(blocks.take(j + 1), n) == named_use_count(blocks.take(j), n)
            + if is_tool_use(blocks[j]) && blocks[j].name == Some(n) { 1nat } else { 0 },
        tool_use_count(blocks.take(j + 1)) <= tool_use_count(blocks),
{
    assert(blocks.take(j + 1).drop_last() =~= blocks.take(j));
    lemma_tool_uses_grow(blocks, j + 1);
}

proof fn lemma_tool_uses_grow(blocks: Seq<BlockModel>, j: int)
    requires
        0 <= j <= blocks.len(),
    ensures
        tool_use_count(blocks.take(j)) <= tool_use_count(blocks),
    decreases blocks.len() - j,
{
    if j < blocks.len() {
        assert(blocks.take(j + 1).drop_last() =~= blocks.take(j));
        lemma_tool_uses_grow(blocks, j + 1);
    } else {
        assert(blocks.take(j) =~= blocks);
    }
}

impl InsightsAccumulator {
    /// The accumulator is well formed, and its view keeps the invariant.
    pub closed spec fn wf(&self) -> bool {
        &&& self.sessions.wf()
        &&& self.active_days.wf()
        &&& self.tool_counts.wf()
        &&& forall|i: int| 0 <= i < self.projects@.len() ==> (#[trigger] self.projects@[i]).sessions.wf()
        &&& insights_invariant(self@)
    }

    /// No transcript read yet.
    pub fn new() -> (r: InsightsAccumulator)
        ensures
            r.wf(),
            r@.total_messages == 0,
            r@.total_tool_calls == 0,
            r@.sessions.is_empty(),
            r@.active_days.is_empty(),
            r@.first_date.len() == 0,
            r@.last_date.len() == 0,
            r@.tool_counts.is_empty(),
            r@.projects.len() == 0,
    {
        let r = InsightsAccumulator {
            total_messages: 0,
            total_tool_calls: 0,
            sessions: TextSet::new(),
            active_days: TextSet::new(),
            first_date: String::new(),
            last_date: String::new(),
            tool_counts: TextCounts::new(),
            projects: Vec::new(),
        };
        assert(r@.projects =~= Seq::<(Seq<char>, ProjectModel)>::empty());
        r
    }

    /// Makes project `slug` known (a transcript of it was found), with no
    /// activity if it is new. Refused (`false`, nothing changed) only when
    /// `u32::MAX` projects are already known.
    pub fn open_project(&mut self, slug: &str) -> (r: bool)
        requires
            old(self).wf(),
        ensures
            final(self).wf(),
            r == (has_key(old(self)@.projects, slug@) || old(self)@.projects.len() < u32::MAX),
            r ==> final(self)@ == with_project(old(self)@, slug@),
            !r ==> final(self)@ == old(self)@,
    {
        match self.find_project(slug) {
            Some(_) => true,
            None => {
                if self.projects.len() >= 4294967295 {
                    return false;
                }
                let ghost before = self@;
                self.projects.push(ProjectAcc {
                    slug: slug.to_owned(),
                    message_count: 0,
                    tool_call_count: 0,
                    sessions: TextSet::new(),
                    last_activity: String::new(),
                });
                proof {
                    assert(self@.projects =~= before.projects.push((slug@, empty_project())));
                    crate::keyed::lemma_map_push(before.projects, slug@, empty_project());
                    assert(self@.projects.drop_last() =~= before.projects);
                    assert(self@ == with_project(before, slug@));
                }
                true
            },
        }
    }

    fn project_slot(&mut self, slug: &str) -> (i: usize)
        requires
            old(self).wf(),
            has_key(old(self)@.projects, slug@) || old(self)@.projects.len() < u32::MAX,
        ensures
            final(self).wf(),
            final(self)@ == with_project(old(self)@, slug@),
            i < final(self)@.projects.len(),
            i == project_index(final(self)@.projects, slug@),
            final(self)@.projects[i as int].0 == slug@,
    {
        match self.find_project(slug) {
            Some(i) => {
                proof {
                    lemma_project_index(self@.projects, i as int, slug@);
                }
                i
            },
            None => {
                let ok = self.open_project(slug);
                let i = self.projects.len() - 1;
                proof {
                    assert(self@.projects[i as int].0 == slug@);
                    lemma_project_index(self@.projects, i as int, slug@);
                }
                i
            },
        }
    }

    /// Counts one transcript record `e` of session `session_id` of project
    /// `slug`: as a message when it is a turn with a timestamp of at least 13
    /// bytes, whose first 10 bytes are its date, and with its tool calls when
    /// it is an assistant turn.
    #[verifier::spinoff_prover]
    pub fn add_entry(&mut self, slug: &str, session_id: &str, e: &TranscriptEntry) -> (r: EntryOutcome)
        requires
            old(self).wf(),
        ensures
            final(self).wf(),
            !is_message(e@) ==> r is Skipped && final(self)@ == old(self)@,
            refuses(old(self)@, slug@, e@) ==> r is Refused && final(self)@ == old(self)@,
            is_message(e@) && !refuses(old(self)@, slug@, e@) ==> r is Counted && final(self)@ == with_message(
                old(self)@,
                slug@,
                session_id@,
                e@,
            ),
    {
        if !entry_is_turn(e) {
            return EntryOutcome::Skipped;
        }
        let t: &str = match &e.timestamp {
            Some(t) => t.as_str(),
            None => {
                return EntryOutcome::Skipped;
            },
        };
        proof {
            assert(t.spec_bytes() == encode_utf8(t@));
            assert(e@.timestamp == Some(t@));
        }
        if t.as_bytes().len() < 13 {
            return EntryOutcome::Skipped;
        }
        if !t.is_char_boundary(10) {
            return EntryOutcome::Refused;
        }
        let uses = tool_uses_of(e);
        if self.total_messages == 4294967295 || uses > (4294967295 - self.total_tool_calls) as usize {
            return EntryOutcome::Refused;
        }
        if self.find_project(slug).is_none() && self.projects.len() >= 4294967295 {
            return EntryOutcome::Refused;
        }
        let ghost m0 = self@;
        let (head, _tail) = t.split_at(10);
        let date: String = head.to_owned();
        proof {
            lemma_message_date(e@);
            encode_utf8_decode_utf8(head@);
            assert(date@ == message_date(e@));
            lemma_with_message_invariant(m0, slug@, session_id@, e@);
        }
        let i = self.project_slot(slug);
        let ghost m1 = self@;
        let ghost target = with_message(m0, slug@, session_id@, e@);
        proof {
            lemma_project_within_sums(m1.projects, i as int);
            assert(m1.projects[i as int] == project_view(self.projects@[i as int]));
        }
        self.total_messages = self.total_messages + 1;
        self.total_tool_calls = self.total_tool_calls + uses as u32;
        self.sessions.insert(session_id);
        self.active_days.insert(date.as_str());
        if self.first_date.as_str().is_empty() || str_lt(date.as_str(), self.first_date.as_str()) {
            self.first_date = date.clone();
        }
        if self.last_date.as_str().is_empty() || str_lt(self.last_date.as_str(), date.as_str()) {
            self.last_date = date.clone();
        }
        let ghost before_projects = self.projects@;
        let mut p = self.projects.remove(i);
        let ghost ps_without = self.projects@;
        p.message_count = p.message_count + 1;
        p.tool_call_count = p.tool_call_count + uses as u32;
        p.sessions.insert(session_id);
        if str_lt(p.last_activity.as_str(), date.as_str()) {
            p.last_activity = date;
        }
        self.projects.insert(i, p);
        count_tool_calls(&mut self.tool_counts, e, Ghost(m1.total_tool_calls));
        proof {
            assert(self.projects@ =~= before_projects.update(i as int, p));
            let f = |q: ProjectAcc| project_view(q);
            assert(self@.projects =~= target.projects) by {
                assert forall|k: int| 0 <= k < self@.projects.len() implies self@.projects[k] == target.projects[k] by {
                    if k != i {
                        assert(self.projects@[k] == before_projects[k]);
                    }
                }
            }
            assert(self@ == target);
            assert forall|k: int| 0 <= k < self.projects@.len() implies (#[trigger] self.projects@[k]).sessions.wf() by {
                if k != i {
                    assert(self.projects@[k] == before_projects[k]);
                }
            }
        }
        EntryOutcome::Counted
    }

    /// What the accumulator holds keeps the invariant.
    pub proof fn lemma_invariant(&self)
        requires
            self.wf(),
        ensures
            insights_invariant(self@),
    {
    }

    fn project_stats(&self) -> (r: Vec<ProjectStat>)
        requires
            self.wf(),
        ensures
            r@.len() == self@.projects.len(),
            forall|j: int| 0 <= j < r@.len() ==> reports_project(#[trigger] r@[j], self@.projects[j].0, self@.projects[j].1),
    {
        let mut out: Vec<ProjectStat> = Vec::new();
        let mut j: usize = 0;
        while j < self.projects.len()
            invariant
                self.wf(),
                j <= self.projects@.len(),
                out@.len() == j,
                forall|k: int| 0 <= k < j ==> reports_project(#[trigger] out@[k], self@.projects[k].0, self@.projects[k].1),
            decreases self.projects@.len() - j,
        {
            let p = &self.projects[j];
            proof {
                assert(self@.projects[j as int] == project_view(self.projects@[j as int]));
                assert(self.projects@[j as int].sessions.wf());
                assert(self@.projects[j as int].1.sessions.len() <= self@.projects[j as int].1.message_count);
            }
            let sessions = p.sessions.len();
            out.push(ProjectStat {
                slug: p.slug.clone(),
                display_name: prettify_slug(p.slug.as_str()),
                message_count: p.message_count,
                session_count: sessions as u32,
                tool_call_count: p.tool_call_count,
                last_activity: p.last_activity.clone(),
            });
            j = j + 1;
        }
        out
    }

    fn cluster_rows(&self) -> (r: Vec<(String, u32)>)
        requires
            self.wf(),
        ensures
            slug_counts(r@) == cluster_input(self@.projects),
    {
        let mut out: Vec<(String, u32)> = Vec::new();
        let mut j: usize = 0;
        while j < self.projects.len()
            invariant
                j <= self.projects@.len(),
                out@.len() == j,
                slug_counts(out@) == cluster_input(self@.projects).take(j as int),
            decreases self.projects@.len() - j,
        {
            let p = &self.projects[j];
            let ghost before = out@;
            let slug = p.slug.clone();
            out.push((slug, p.message_count));
            proof {
                assert(out@ == before.push((slug, p.message_count)));
                assert(slug@ == self@.projects[j as int].0);
                assert(slug_counts(out@) =~= cluster_input(self@.projects).take(j + 1)) by {
                    assert forall|k: int| 0 <= k < j + 1 implies slug_counts(out@)[k] == cluster_input(self@.projects).take(j + 1)[k] by {
                        if k < j {
                            assert(out@[k] == before[k]);
                            assert(slug_counts(before)[k] == cluster_input(self@.projects).take(j as int)[k]);
                        }
                    }
                }
            }
            j = j + 1;
        }
        assert(cluster_input(self@.projects).take(j as int) =~= cluster_input(self@.projects));
        out
    }

    fn tool_stats(&self) -> (r: Vec<ToolStat>)
        requires
            self.wf(),
        ensures
            forall|a: int, b: int| 0 <= a < r@.len() && 0 <= b < r@.len() && a != b ==> r@[a].name@ != r@[b].name@,
            forall|a: int| 0 <= a < r@.len() ==> self@.tool_counts.contains_key(#[trigger] r@[a].name@) && r@[a].count == self@.tool_counts[r@[a].name@],
            forall|n: Seq<char>| #[trigger] self@.tool_counts.contains_key(n) ==> exists|a: int| 0 <= a < r@.len() && #[trigger] r@[a].name@ == n,
            r@.len() == self@.tool_counts.dom().len(),
    {
        let pairs = self.tool_counts.to_vec();
        let ghost pv = pairs@.map_values(|e: (String, u32)| (e.0@, e.1));
        proof {
            lemma_map_len(pv);
        }
        let mut out: Vec<ToolStat> = Vec::new();
        let mut j: usize = 0;
        while j < pairs.len()
            invariant
                j <= pairs@.len(),
                pv == pairs@.map_values(|e: (String, u32)| (e.0@, e.1)),
                out@.len() == j,
                forall|a: int| 0 <= a < j ==> (#[trigger] out@[a]).name@ == pv[a].0 && out@[a].count == pv[a].1,
            decreases pairs@.len() - j,
        {
            out.push(ToolStat { name: pairs[j].0.clone(), count: pairs[j].1 });
            j = j + 1;
        }
        proof {
            assert forall|a: int| 0 <= a < out@.len() implies self@.tool_counts.contains_key(#[trigger] out@[a].name@) && out@[a].count == self@.tool_counts[out@[a].name@] by {
                lemma_map_at(pv, a);
            }
            assert forall|n: Seq<char>| #[trigger] self@.tool_counts.contains_key(n) implies exists|a: int| 0 <= a < out@.len() && #[trigger] out@[a].name@ == n by {
                let a = choose|a: int| 0 <= a < pv.len() && pv[a].0 == n;
                assert(out@[a].name@ == n);
            }
        }
        out
    }

    /// The insights: totals, distinct sessions and active days, the first
    /// and last dates, the 15 projects with the most messages, the clusters of
    /// all projects, and the 20 most called tools; with the time of writing
    /// and the counts of plans, scheduled tasks and memory files given.
    #[verifier::spinoff_prover]
    pub fn summary(
        &self,
        generated_at: String,
        plans_count: u32,
        scheduled_tasks_count: u32,
        memory_files_count: u32,
    ) -> (r: InsightsSummary)
        requires
            self.wf(),
        ensures
            r.generated_at == generated_at,
            r.total_messages == self@.total_messages,
            r.total_sessions == self@.sessions.len(),
            r.total_tool_calls == self@.total_tool_calls,
            r.active_days == self@.active_days.len(),
            r.first_date@ == self@.first_date,
            r.last_date@ == self@.last_date,
            is_top_projects(r.top_projects@, self@.projects, 15),
            is_cluster_table(r.project_clusters@, cluster_input(self@.projects)),
            is_top_tools(r.tool_frequencies@, self@.tool_counts, 20),
            r.plans_count == plans_count,
            r.scheduled_tasks_count == scheduled_tasks_count,
            r.memory_files_count == memory_files_count,
    {
        let ghost m = self@;
        let all = self.project_stats();
        proof {
            assert(all@.no_duplicates()) by {
                assert forall|a: int, b: int| 0 <= a < all@.len() && 0 <= b < all@.len() && a != b implies all@[a] != all@[b] by {
                    assert(reports_project(all@[a], m.projects[a].0, m.projects[a].1));
                    assert(reports_project(all@[b], m.projects[b].0, m.projects[b].1));
                }
            }
        }
        let top_projects = top(all, 15);
        proof {
            lemma_top_projects(top_projects@, all@, m.projects, 15);
        }
        let rows = self.cluster_rows();
        proof {
            assert forall|key: Seq<char>| cluster_size(slug_counts(rows@), key) <= u32::MAX && cluster_messages(
                slug_counts(rows@),
                key,
            ) <= u32::MAX by {
                lemma_cluster_bounds(m.projects, key);
            }
        }
        let project_clusters = build_clusters(rows.as_slice());
        let tools = self.tool_stats();
        proof {
            assert(tools@.no_duplicates()) by {
                assert forall|a: int, b: int| 0 <= a < tools@.len() && 0 <= b < tools@.len() && a != b implies tools@[a] != tools@[b] by {
                    assert(tools@[a].name@ != tools@[b].name@);
                }
            }
        }
        let tool_frequencies = top(tools, 20);
        proof {
            lemma_top_tools(tool_frequencies@, tools@, m.tool_counts, 20);
        }
        let total_sessions = self.sessions.len();
        let active_days = self.active_days.len();
        InsightsSummary {
            generated_at,
            total_messages: self.total_messages,
            total_sessions: total_sessions as u32,
            total_tool_calls: self.total_tool_calls,
            active_days: active_days as u32,
            first_date: self.first_date.clone(),
            last_date: self.last_date.clone(),
            top_projects,
            project_clusters,
            tool_frequencies,
            plans_count,
            scheduled_tasks_count,
            memory_files_count,
        }
    }

    fn find_project(&self, slug: &str) -> (r: Option<usize>)
        ensures
            r matches Some(i) ==> i < self@.projects.len() && self@.projects[i as int].0 == slug@,
            r is None ==> !has_key(self@.projects, slug@),
    {
        let mut i: usize = 0;
        while i < self.projects.len()
            invariant
                i <= self.projects@.len(),
                forall|j: int| 0 <= j < i ==> self@.projects[j].0 != slug@,
            decreases self.projects@.len() - i,
        {
            if crate::text::str_eq(self.projects[i].slug.as_str(), slug) {
                return Some(i);
            }
            i = i + 1;
        }
        None
    }
}

} // verus!
