use vstd::prelude::*;

use crate::reflog::{
    is_reflog_line, parse_reflog_line, reflog_record_of, RecordView, ReflogError, ReflogRecord,
};

verus! {

/// What the repository reports of one reference.
#[derive(Clone, Debug)]
pub struct RefInfo {
    /// Full name, such as `refs/heads/main`.
    pub full_name: String,
    /// Short, user-facing name, such as `main`.
    pub shorthand: String,
    pub is_remote: bool,
    pub is_tag: bool,
}

/// A reference with the lines of its log, or `None` where it has no log.
#[derive(Clone, Debug)]
pub struct RefLog {
    pub info: RefInfo,
    pub log: Option<Vec<String>>,
}

/// A reference paired with the last record of its log.
#[derive(Clone, Debug)]
pub struct RankedRef {
    pub full_name: String,
    pub display_name: String,
    pub latest_entry: ReflogRecord,
}

/// A `RankedRef` as plain values.
pub struct RankedView {
    pub full_name: Seq<char>,
    pub display_name: Seq<char>,
    pub latest: RecordView,
}

impl View for RankedRef {
    type V = RankedView;

    open spec fn view(&self) -> RankedView {
        RankedView {
            full_name: self.full_name@,
            display_name: self.display_name@,
            latest: self.latest_entry@,
        }
    }
}

/// Whether `name` is the branch that an attached HEAD points to.
pub open spec fn is_head(head_name: Option<String>, name: Seq<char>) -> bool {
    match head_name {
        Some(h) => h@ == name,
        None => false,
    }
}

/// The listing policy: remote-tracking references and tags only where they
/// are asked for, and never the branch that HEAD is attached to.
pub open spec fn listed(
    info: RefInfo,
    head_name: Option<String>,
    include_remotes: bool,
    include_tags: bool,
) -> bool {
    &&& !(!include_remotes && info.is_remote)
    &&& !(!include_tags && info.is_tag)
    &&& !is_head(head_name, info.full_name@)
}

/// The lines of a reference's log that exist and are not empty.
pub open spec fn has_entries(rl: RefLog) -> bool {
    match rl.log {
        Some(lines) => lines@.len() > 0,
        None => false,
    }
}

/// The last line of a reference's log.
pub open spec fn last_line(rl: RefLog) -> Seq<char> {
    match rl.log {
        Some(lines) => lines@.last()@,
        None => Seq::empty(),
    }
}

/// A listed reference whose last log line is malformed.
pub open spec fn log_broken(
    rl: RefLog,
    head_name: Option<String>,
    include_remotes: bool,
    include_tags: bool,
) -> bool {
    listed(rl.info, head_name, include_remotes, include_tags) && has_entries(rl)
        && !is_reflog_line(last_line(rl))
}

/// What a reference contributes to the ranking: nothing where it is not
/// listed or has no log record.
pub open spec fn entry_of(
    rl: RefLog,
    head_name: Option<String>,
    include_remotes: bool,
    include_tags: bool,
) -> Option<RankedView> {
    if listed(rl.info, head_name, include_remotes, include_tags) && has_entries(rl) {
        Some(
            RankedView {
                full_name: rl.info.full_name@,
                display_name: rl.info.shorthand@,
                latest: reflog_record_of(last_line(rl)),
            },
        )
    } else {
        None
    }
}

/// The references that take part in the ranking, in enumeration order.
pub open spec fn candidates(
    refs: Seq<RefLog>,
    head_name: Option<String>,
    include_remotes: bool,
    include_tags: bool,
) -> Seq<RankedView> {
    refs.filter_map(|rl: RefLog| entry_of(rl, head_name, include_remotes, include_tags))
}

pub open spec fn recency(v: RankedView) -> int {
    v.latest.timestamp
}

/// The first position from `i` on whose entry is older than `t`, or the length.
pub open spec fn insert_pos(s: Seq<RankedView>, t: int, i: int) -> int
    decreases s.len() - i,
{
    if i >= s.len() {
        s.len() as int
    } else if recency(s[i]) < t {
        i
    } else {
        insert_pos(s, t, i + 1)
    }
}

/// `x` put after every entry at least as recent.
pub open spec fn insert_desc(s: Seq<RankedView>, x: RankedView) -> Seq<RankedView> {
    s.insert(insert_pos(s, recency(x), 0), x)
}

/// The entries by recency, most recent first; entries of equal recency keep
/// their order.
pub open spec fn sort_desc(s: Seq<RankedView>) -> Seq<RankedView>
    decreases s.len(),
{
    if s.len() == 0 {
        s
    } else {
        insert_desc(sort_desc(s.drop_last()), s.last())
    }
}

/// The ranked list for a set of references.
pub open spec fn ranking(
    refs: Seq<RefLog>,
    head_name: Option<String>,
    include_remotes: bool,
    include_tags: bool,
) -> Seq<RankedView> {
    sort_desc(candidates(refs, head_name, include_remotes, include_tags))
}

/// The insertion position lies after every entry at least as recent as `t`
/// and, where it is not the end, at an entry older than `t`.
pub proof fn lemma_insert_pos(s: Seq<RankedView>, t: int, i: int)
    requires
        0 <= i <= s.len(),
    ensures
        i <= insert_pos(s, t, i) <= s.len(),
        forall|k: int| i <= k < insert_pos(s, t, i) ==> recency(#[trigger] s[k]) >= t,
        insert_pos(s, t, i) < s.len() ==> recency(s[insert_pos(s, t, i)]) < t,
    decreases s.len() - i,
{
    if i < s.len() && recency(s[i]) >= t {
        lemma_insert_pos(s, t, i + 1);
    }
}

/// Every entry is at least as recent as every entry after it.
pub open spec fn is_desc(s: Seq<RankedView>) -> bool {
    forall|i: int, j: int| 0 <= i < j < s.len() ==> recency(#[trigger] s[i]) >= recency(#[trigger] s[j])
}

/// The entries of recency `t`.
pub open spec fn of_recency(s: Seq<RankedView>, t: int) -> Seq<RankedView> {
    s.filter(|v: RankedView| recency(v) == t)
}

proof fn lemma_sort_desc_sorted(s: Seq<RankedView>)
    ensures
        is_desc(sort_desc(s)),
        sort_desc(s).len() == s.len(),
    decreases s.len(),
{
    if s.len() > 0 {
        let r = sort_desc(s.drop_last());
        let x = s.last();
        lemma_sort_desc_sorted(s.drop_last());
        let p = insert_pos(r, recency(x), 0);
        lemma_insert_pos(r, recency(x), 0);
        r.insert_ensures(p, x);
        let q = r.insert(p, x);
        assert forall|i: int, j: int| 0 <= i < j < q.len() implies recency(#[trigger] q[i]) >= recency(
            #[trigger] q[j],
        ) by {
            if j < p {
            } else if j == p {
            } else if i < p {
                assert(q[(j - 1) + 1] == r[j - 1]);
                if p < r.len() {
                    assert(recency(r[p]) >= recency(r[j - 1]));
                }
            } else if i == p {
                assert(q[(j - 1) + 1] == r[j - 1]);
                assert(recency(r[p]) >= recency(r[j - 1]));
            } else {
                assert(q[(i - 1) + 1] == r[i - 1]);
                assert(q[(j - 1) + 1] == r[j - 1]);
            }
        }
    }
}

proof fn lemma_filter_none(q: Seq<RankedView>, t: int)
    requires
        forall|k: int| 0 <= k < q.len() ==> recency(#[trigger] q[k]) != t,
    ensures
        of_recency(q, t) == Seq::<RankedView>::empty(),
{
    let pred = |v: RankedView| recency(v) == t;
    let f = q.filter(pred);
    if f.len() > 0 {
        q.lemma_filter_pred(pred, 0);
        assert(f.contains(f[0]));
        q.lemma_filter_contains_rev(pred, f[0]);
        assert(pred(f[0]));
    }
    assert(f =~= Seq::<RankedView>::empty());
}

proof fn lemma_sort_desc_stable(s: Seq<RankedView>, t: int)
    ensures
        of_recency(sort_desc(s), t) == of_recency(s, t),
    decreases s.len(),
{
    let pred = |v: RankedView| recency(v) == t;
    if s.len() > 0 {
        let r = sort_desc(s.drop_last());
        let x = s.last();
        lemma_sort_desc_stable(s.drop_last(), t);
        lemma_sort_desc_sorted(s.drop_last());
        let p = insert_pos(r, recency(x), 0);
        lemma_insert_pos(r, recency(x), 0);
        let a = r.subrange(0, p);
        let b = r.subrange(p, r.len() as int);
        assert(r.insert(p, x) == a.push(x) + b);
        Seq::filter_distributes_over_add(a.push(x), b, pred);
        Seq::filter_distributes_over_add(a, b, pred);
        assert(r =~= a + b);
        reveal(Seq::filter);
        assert(a.push(x).drop_last() =~= a);
        assert(s.filter(pred) == if pred(x) {
            s.drop_last().filter(pred).push(x)
        } else {
            s.drop_last().filter(pred)
        });
        if recency(x) == t {
            assert forall|k: int| 0 <= k < b.len() implies recency(#[trigger] b[k]) != t by {
                assert(b[k] == r[p + k]);
                if k > 0 {
                    assert(recency(r[p]) >= recency(r[p + k]));
                }
            }
            lemma_filter_none(b, t);
            assert(b.filter(pred) =~= Seq::<RankedView>::empty());
            assert(a.filter(pred).push(x) + b.filter(pred) =~= a.filter(pred).push(x));
            assert(a.filter(pred) + b.filter(pred) =~= a.filter(pred));
        } else {
            assert(a.push(x).filter(pred) == a.filter(pred));
        }
    }
}

/// The ranked list puts the most recent entries first: every entry is at
/// least as recent as every entry after it.
pub proof fn lemma_ranking_most_recent_first(
    refs: Seq<RefLog>,
    head_name: Option<String>,
    include_remotes: bool,
    include_tags: bool,
)
    ensures
        is_desc(ranking(refs, head_name, include_remotes, include_tags)),
        ranking(refs, head_name, include_remotes, include_tags).len() == candidates(
            refs,
            head_name,
            include_remotes,
            include_tags,
        ).len(),
{
    lemma_sort_desc_sorted(candidates(refs, head_name, include_remotes, include_tags));
}

/// Ranking is stable: the entries of any one recency appear in the ranked
/// list in the order in which their references were enumerated.
pub proof fn lemma_ranking_stable(
    refs: Seq<RefLog>,
    head_name: Option<String>,
    include_remotes: bool,
    include_tags: bool,
    t: int,
)
    ensures
        of_recency(ranking(refs, head_name, include_remotes, include_tags), t) == of_recency(
            candidates(refs, head_name, include_remotes, include_tags),
            t,
        ),
{
    lemma_sort_desc_stable(candidates(refs, head_name, include_remotes, include_tags), t);
}

/// Every entry of the ranked list comes from a listed reference: no
/// remote-tracking reference unless remotes are included, no tag unless tags
/// are included, and never the branch that HEAD is attached to.
pub proof fn lemma_ranking_respects_filters(
    refs: Seq<RefLog>,
    head_name: Option<String>,
    include_remotes: bool,
    include_tags: bool,
    k: int,
)
    requires
        0 <= k < ranking(refs, head_name, include_remotes, include_tags).len(),
    ensures
        exists|i: int|
            0 <= i < refs.len() && (#[trigger] refs[i]).info.full_name@ == ranking(
                refs,
                head_name,
                include_remotes,
                include_tags,
            )[k].full_name && (!include_remotes ==> !refs[i].info.is_remote) && (!include_tags
                ==> !refs[i].info.is_tag) && !is_head(head_name, refs[i].info.full_name@),
{
    let c = candidates(refs, head_name, include_remotes, include_tags);
    let sorted = ranking(refs, head_name, include_remotes, include_tags);
    let y = sorted[k];
    let t = recency(y);
    let pred = |v: RankedView| recency(v) == t;
    let f = |rl: RefLog| entry_of(rl, head_name, include_remotes, include_tags);
    lemma_sort_desc_stable(c, t);
    assert(pred(sorted[k]));
    sorted.lemma_filter_contains(pred, k);
    assert(sorted.filter(pred).contains(y));
    c.lemma_filter_contains_rev(pred, y);
    refs.lemma_filter_map_contains(f, y);
    let rl = choose|rl: RefLog| #[trigger] refs.contains(rl) && f(rl) == Some(y);
    let i = choose|i: int| 0 <= i < refs.len() && refs[i] == rl;
    assert(refs[i] == rl);
}

/// Whether a reference is shown under the listing policy.
pub fn is_listed(
    info: &RefInfo,
    head_name: &Option<String>,
    include_remotes: bool,
    include_tags: bool,
) -> (r: bool)
    ensures
        r == listed(*info, *head_name, include_remotes, include_tags),
{
    if !include_remotes && info.is_remote {
        return false;
    }
    if !include_tags && info.is_tag {
        return false;
    }
    match head_name {
        Some(h) => !(*h == info.full_name),
        None => true,
    }
}

/// The most recent record of a log: `None` for a log without lines, else the
/// last line read as a record.
pub fn latest_record(lines: &Vec<String>) -> (r: Result<Option<ReflogRecord>, ReflogError>)
    ensures
        lines@.len() == 0 ==> r == Ok::<Option<ReflogRecord>, ReflogError>(None),
        lines@.len() > 0 ==> match r {
            Ok(Some(rec)) => rec.wf() && is_reflog_line(lines@.last()@) && rec@ == reflog_record_of(
                lines@.last()@,
            ),
            Ok(None) => false,
            Err(e) => e == ReflogError::MalformedReflogLine && !is_reflog_line(lines@.last()@),
        },
{
    if lines.len() == 0 {
        return Ok(None);
    }
    match parse_reflog_line(lines[lines.len() - 1].as_str()) {
        Ok(rec) => Ok(Some(rec)),
        Err(e) => Err(e),
    }
}

/// Where an entry of recency `t` goes in a list ordered most recent first.
fn find_insert_pos(sorted: &Vec<RankedRef>, t: i64, views: Ghost<Seq<RankedView>>) -> (r: usize)
    requires
        sorted@.len() == views@.len(),
        forall|j: int| 0 <= j < views@.len() ==> #[trigger] sorted@[j]@ == views@[j],
    ensures
        r as int == insert_pos(views@, t as int, 0),
        r <= sorted@.len(),
{
    proof {
        lemma_insert_pos(views@, t as int, 0);
    }
    let mut i: usize = 0;
    while i < sorted.len() && sorted[i].latest_entry.timestamp >= t
        invariant
            i <= sorted@.len(),
            sorted@.len() == views@.len(),
            forall|j: int| 0 <= j < views@.len() ==> #[trigger] sorted@[j]@ == views@[j],
            insert_pos(views@, t as int, 0) == insert_pos(views@, t as int, i as int),
        decreases sorted@.len() - i,
    {
        assert(sorted@[i as int]@ == views@[i as int]);
        i = i + 1;
    }
    if i < sorted.len() {
        assert(sorted@[i as int]@ == views@[i as int]);
    }
    i
}

/// Ranks references by the time of their last log record, most recent first.
///
/// References outside the listing policy, or without a log record, are left
/// out; references of equal time keep their enumeration order. Fails exactly
/// when a listed reference's last log line is malformed.
pub fn rank_refs(
    refs: &Vec<RefLog>,
    head_name: &Option<String>,
    include_remotes: bool,
    include_tags: bool,
) -> (r: Result<Vec<RankedRef>, ReflogError>)
    ensures
        r.is_err() <==> exists|i: int|
            0 <= i < refs@.len() && #[trigger] log_broken(
                refs@[i],
                *head_name,
                include_remotes,
                include_tags,
            ),
        match r {
            Ok(v) => v@.map_values(|x: RankedRef| x@) == ranking(
                refs@,
                *head_name,
                include_remotes,
                include_tags,
            ) && forall|j: int| 0 <= j < v@.len() ==> (#[trigger] v@[j]).latest_entry.wf(),
            Err(e) => e == ReflogError::MalformedReflogLine,
        },
{
    let ghost f = |rl: RefLog| entry_of(rl, *head_name, include_remotes, include_tags);
    let mut sorted: Vec<RankedRef> = Vec::new();
    let ghost mut views: Seq<RankedView> = Seq::empty();
    let mut i: usize = 0;
    while i < refs.len()
        invariant
            i <= refs@.len(),
            f == (|rl: RefLog| entry_of(rl, *head_name, include_remotes, include_tags)),
            sorted@.len() == views.len(),
            forall|j: int| 0 <= j < views.len() ==> #[trigger] sorted@[j]@ == views[j],
            forall|j: int| 0 <= j < sorted@.len() ==> (#[trigger] sorted@[j]).latest_entry.wf(),
            views == sort_desc(refs@.subrange(0, i as int).filter_map(f)),
            forall|k: int|
                0 <= k < i ==> !#[trigger] log_broken(
                    refs@[k],
                    *head_name,
                    include_remotes,
                    include_tags,
                ),
        decreases refs@.len() - i,
    {
        let rl = &refs[i];
        let ghost prefix = refs@.subrange(0, i as int);
        assert(refs@.subrange(0, i + 1).drop_last() =~= prefix);
        assert(refs@.subrange(0, i + 1).last() == refs@[i as int]);
        if is_listed(&rl.info, head_name, include_remotes, include_tags) {
            match &rl.log {
                Some(lines) => {
                    match latest_record(lines) {
                        Ok(Some(rec)) => {
                            let t = rec.timestamp;
                            let item = RankedRef {
                                full_name: rl.info.full_name.clone(),
                                display_name: rl.info.shorthand.clone(),
                                latest_entry: rec,
                            };
                            let p = find_insert_pos(&sorted, t, Ghost(views));
                            proof {
                                assert(f(refs@[i as int]) == Some(item@));
                                assert(refs@.subrange(0, i + 1).filter_map(f) == prefix.filter_map(
                                    f,
                                ) + seq![item@]);
                                assert(prefix.filter_map(f) + seq![item@] =~= prefix.filter_map(
                                    f,
                                ).push(item@));
                                assert((prefix.filter_map(f) + seq![item@]).drop_last()
                                    =~= prefix.filter_map(f));
                            }
                            sorted.insert(p, item);
                            proof {
                                let old_views = views;
                                old_views.insert_ensures(p as int, item@);
                                views = views.insert(p as int, item@);
                                assert forall|j: int| 0 <= j < views.len() implies #[trigger] sorted@[j]@
                                    == views[j] by {
                                    if j < p {
                                        assert(views[j] == old_views[j]);
                                    } else if j > p {
                                        assert(views[(j - 1) + 1] == old_views[j - 1]);
                                    }
                                }
                            }
                        },
                        Ok(None) => {},
                        Err(e) => {
                            assert(log_broken(refs@[i as int], *head_name, include_remotes, include_tags));
                            return Err(e);
                        },
                    }
                },
                None => {},
            }
        }
        i = i + 1;
    }
    assert(refs@.subrange(0, refs@.len() as int) =~= refs@);
    assert(sorted@.map_values(|x: RankedRef| x@) =~= views);
    Ok(sorted)
}

} // verus!
