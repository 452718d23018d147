use vstd::prelude::*;
use crate::state::{opt_view, AppState};
use crate::timestamp::{
    cutoff, lemma_lex_asymmetric, lemma_lex_total, lemma_lex_trans, lemma_wire_strict_order,
    lex_le, lex_lt, push_char, wire_less, wire_of, MAX_FOUR_DIGIT_SECS,
};

verus! {

/// How far back the first poll, with no cursor yet, forwards notifications.
pub const FIRST_POLL_WINDOW: u64 = 60;

/// One notification as the remote source reports it.
#[derive(Debug)]
pub struct NotificationRecord {
    pub id: String,
    pub unread: bool,
    pub reason: String,
    pub updated_at: String,
    pub title: String,
    pub kind: String,
    pub repo: String,
}

/// The event pushed for one notification.
#[derive(Clone, Debug)]
pub struct PushPayload {
    pub title: String,
    pub body: String,
    pub reason: String,
    pub repo: String,
    pub id: String,
}

/// `p` is the event built from `n`: title `[repo] title`, body `reason: kind`.
pub open spec fn payload_for(p: PushPayload, n: NotificationRecord) -> bool {
    &&& p.title@ == seq!['['] + n.repo@ + seq![']', ' '] + n.title@
    &&& p.body@ == n.reason@ + seq![':', ' '] + n.kind@
    &&& p.reason@ == n.reason@
    &&& p.repo@ == n.repo@
    &&& p.id@ == n.id@
}

/// The record is older than the first-poll cutoff, where there is one.
pub open spec fn before_cutoff(n: NotificationRecord, cut: Option<Seq<char>>) -> bool {
    match cut {
        Some(c) => lex_lt(n.updated_at@, c),
        None => false,
    }
}

/// The record is forwarded: it is unread and not older than the cutoff.
pub open spec fn qualifies(n: NotificationRecord, cut: Option<Seq<char>>) -> bool {
    n.unread && !before_cutoff(n, cut)
}

/// The records that are forwarded, in the order received.
pub open spec fn forwarded(recs: Seq<NotificationRecord>, cut: Option<Seq<char>>) -> Seq<
    NotificationRecord,
>
    decreases recs.len(),
{
    if recs.len() == 0 {
        Seq::empty()
    } else {
        let f = forwarded(recs.drop_last(), cut);
        if qualifies(recs.last(), cut) {
            f.push(recs.last())
        } else {
            f
        }
    }
}

/// How many unread records the cutoff holds back.
pub open spec fn skipped_count(recs: Seq<NotificationRecord>, cut: Option<Seq<char>>) -> nat
    decreases recs.len(),
{
    if recs.len() == 0 {
        0
    } else {
        skipped_count(recs.drop_last(), cut) + if recs.last().unread && before_cutoff(
            recs.last(),
            cut,
        ) {
            1nat
        } else {
            0nat
        }
    }
}

/// The greatest `updated_at` among the unread records; of equal ones the first
/// seen is kept. `None` when no record is unread.
pub open spec fn latest_of(recs: Seq<NotificationRecord>) -> Option<Seq<char>>
    decreases recs.len(),
{
    if recs.len() == 0 {
        None
    } else {
        let prev = latest_of(recs.drop_last());
        let n = recs.last();
        if !n.unread {
            prev
        } else {
            match prev {
                None => Some(n.updated_at@),
                Some(p) => if lex_lt(p, n.updated_at@) {
                    Some(n.updated_at@)
                } else {
                    Some(p)
                },
            }
        }
    }
}

/// The cursor after a cycle that received `recs`: the latest unread timestamp,
/// or the old cursor when nothing was unread.
pub open spec fn next_cursor(cursor: Option<Seq<char>>, recs: Seq<NotificationRecord>) -> Option<
    Seq<char>,
> {
    match latest_of(recs) {
        Some(t) => Some(t),
        None => cursor,
    }
}

/// What a poll cycle does first.
pub enum CycleStart {
    /// No endpoint is registered: nothing is fetched or forwarded.
    NoEndpoint,
    /// Fetch the notifications updated since `since`, forward to `endpoint`, and
    /// hold back those older than `cutoff`.
    Fetch { endpoint: String, since: Option<String>, cutoff: Option<String> },
}

/// What a cycle does with one fetched batch.
pub struct BatchPlan {
    /// The events to push, in order.
    pub pushes: Vec<PushPayload>,
    /// The new cursor candidate.
    pub latest: Option<String>,
    /// How many unread records the cutoff held back.
    pub skipped: usize,
}

fn append_str(s: &mut String, t: &String)
    ensures
        final(s)@ == old(s)@ + t@,
{
    s.append(t.as_str());
}

/// The notification source's list endpoint.
pub const NOTIFICATIONS_URL: &'static str = "https://api.github.com/notifications";

/// The query that bounds a fetch to notifications updated since the cursor.
pub const SINCE_QUERY: &'static str = "?since=";

/// The request target of a fetch: the list endpoint, with the cursor as its
/// `since` filter when there is one.
pub open spec fn notifications_url_spec(since: Option<Seq<char>>) -> Seq<char> {
    match since {
        None => NOTIFICATIONS_URL@,
        Some(s) => NOTIFICATIONS_URL@ + SINCE_QUERY@ + s,
    }
}

/// Builds the request target of a fetch from the cursor.
pub fn notifications_url(since: &Option<String>) -> (r: String)
    ensures
        r@ == notifications_url_spec(opt_view(*since)),
{
    let mut url = String::from_str(NOTIFICATIONS_URL);
    if let Some(s) = since {
        url.append(SINCE_QUERY);
        url.append(s.as_str());
    }
    url
}

/// The event for one notification.
pub fn build_payload(n: &NotificationRecord) -> (p: PushPayload)
    ensures
        payload_for(p, *n),
{
    let mut title = String::new();
    push_char(&mut title, '[');
    append_str(&mut title, &n.repo);
    push_char(&mut title, ']');
    push_char(&mut title, ' ');
    append_str(&mut title, &n.title);
    let mut body = String::new();
    append_str(&mut body, &n.reason);
    push_char(&mut body, ':');
    push_char(&mut body, ' ');
    append_str(&mut body, &n.kind);
    assert(title@ =~= seq!['['] + n.repo@ + seq![']', ' '] + n.title@);
    assert(body@ =~= n.reason@ + seq![':', ' '] + n.kind@);
    PushPayload {
        title,
        body,
        reason: n.reason.clone(),
        repo: n.repo.clone(),
        id: n.id.clone(),
    }
}

/// Decides how a cycle starts from the current state and the time `now`, in
/// seconds since the Unix epoch.
pub fn begin_cycle(app: &AppState, now: u64) -> (r: CycleStart)
    requires
        app.state.endpoint is Some && app.state.last_poll is None ==> now >= FIRST_POLL_WINDOW,
    ensures
        r is NoEndpoint <==> app.state.endpoint is None,
        r matches CycleStart::Fetch { endpoint, since, cutoff } ==> {
            &&& app.state.endpoint == Some(endpoint)
            &&& since == app.state.last_poll
            &&& (cutoff is Some <==> app.state.last_poll is None)
            &&& (cutoff matches Some(c) ==> c@ == wire_of((now - FIRST_POLL_WINDOW) as nat))
        },
{
    let endpoint = match app.get_endpoint() {
        Some(e) => e,
        None => {
            return CycleStart::NoEndpoint;
        },
    };
    let since = app.get_last_poll();
    let cut = match since {
        None => Some(cutoff(now, FIRST_POLL_WINDOW)),
        Some(_) => None,
    };
    CycleStart::Fetch { endpoint, since, cutoff: cut }
}

/// Decides, for one fetched batch, which events to push and the new cursor
/// candidate. Records are taken in the order received; read ones are passed
/// over, and those older than `cut` are counted and held back.
pub fn plan_batch(recs: &Vec<NotificationRecord>, cut: &Option<String>) -> (r: BatchPlan)
    ensures
        r.pushes@.len() == forwarded(recs@, opt_view(*cut)).len(),
        forall|i: int|
            0 <= i < r.pushes@.len() ==> payload_for(
                #[trigger] r.pushes@[i],
                forwarded(recs@, opt_view(*cut))[i],
            ),
        opt_view(r.latest) == latest_of(recs@),
        r.skipped == skipped_count(recs@, opt_view(*cut)),
{
    let ghost c = opt_view(*cut);
    let mut pushes: Vec<PushPayload> = Vec::new();
    let mut latest: Option<String> = None;
    let mut skipped: usize = 0;
    let mut i: usize = 0;
    while i < recs.len()
        invariant
            i <= recs@.len(),
            c == opt_view(*cut),
            pushes@.len() == forwarded(recs@.subrange(0, i as int), c).len(),
            forall|k: int|
                0 <= k < pushes@.len() ==> payload_for(
                    #[trigger] pushes@[k],
                    forwarded(recs@.subrange(0, i as int), c)[k],
                ),
            opt_view(latest) == latest_of(recs@.subrange(0, i as int)),
            skipped == skipped_count(recs@.subrange(0, i as int), c),
            skipped <= i,
        decreases recs@.len() - i,
    {
        let n = &recs[i];
        let ghost pre = recs@.subrange(0, i as int);
        let ghost cur = recs@.subrange(0, i + 1);
        assert(cur.drop_last() =~= pre);
        assert(cur.last() == *n);
        if n.unread {
            let newer = match &latest {
                None => true,
                Some(l) => wire_less(l.as_str(), n.updated_at.as_str()),
            };
            if newer {
                latest = Some(n.updated_at.clone());
            }
            let held = match cut {
                Some(cs) => wire_less(n.updated_at.as_str(), cs.as_str()),
                None => false,
            };
            if held {
                skipped = skipped + 1;
            } else {
                let p = build_payload(n);
                pushes.push(p);
            }
        }
        i = i + 1;
    }
    assert(recs@.subrange(0, i as int) =~= recs@);
    BatchPlan { pushes, latest, skipped }
}

/// Ends a cycle: stores the batch's cursor candidate, if any. The endpoint is
/// never touched, and with no candidate nothing changes.
pub fn finish_cycle(app: &mut AppState, latest: Option<String>)
    ensures
        final(app).state.endpoint == old(app).state.endpoint,
        final(app).github_token == old(app).github_token,
        final(app).state.last_poll == (match latest {
            Some(t) => Some(t),
            None => old(app).state.last_poll,
        }),
{
    if let Some(t) = latest {
        app.set_last_poll(t);
    }
}


/// The latest timestamp of a batch is the `updated_at` of one of its unread
/// records and is not before any of them; there is one exactly when some record
/// is unread.
pub proof fn lemma_latest_is_max(recs: Seq<NotificationRecord>)
    ensures
        latest_of(recs) is None <==> forall|i: int| 0 <= i < recs.len() ==> !(#[trigger] recs[i]).unread,
        latest_of(recs) matches Some(t) ==> {
            &&& exists|i: int|
                0 <= i < recs.len() && (#[trigger] recs[i]).unread && recs[i].updated_at@ == t
            &&& forall|i: int|
                0 <= i < recs.len() && (#[trigger] recs[i]).unread ==> lex_le(
                    recs[i].updated_at@,
                    t,
                )
        },
    decreases recs.len(),
{
    if recs.len() > 0 {
        let pre = recs.drop_last();
        let n = recs.last();
        lemma_latest_is_max(pre);
        assert(forall|i: int| 0 <= i < pre.len() ==> pre[i] == recs[i]);
        if n.unread {
            assert(recs[recs.len() - 1] == n);
            match latest_of(pre) {
                None => {},
                Some(p) => {
                    lemma_lex_total(p, n.updated_at@);
                    if lex_lt(p, n.updated_at@) {
                        assert forall|i: int|
                            0 <= i < recs.len() && (#[trigger] recs[i]).unread implies lex_le(
                            recs[i].updated_at@,
                            n.updated_at@,
                        ) by {
                            if i < recs.len() - 1 {
                                assert(pre[i] == recs[i]);
                                if recs[i].updated_at@ != p {
                                    lemma_lex_trans(recs[i].updated_at@, p, n.updated_at@);
                                }
                            }
                        }
                    } else {
                        let w = choose|i: int|
                            0 <= i < pre.len() && (#[trigger] pre[i]).unread && pre[i].updated_at@
                                == p;
                        assert(recs[w] == pre[w]);
                    }
                },
            }
        } else {
            if let Some(p) = latest_of(pre) {
                let w = choose|i: int|
                    0 <= i < pre.len() && (#[trigger] pre[i]).unread && pre[i].updated_at@ == p;
                assert(recs[w] == pre[w]);
            }
        }
    }
}

/// Every unread record of the batch is not older than the cursor it was
/// fetched with, as a source that honours `since` delivers.
pub open spec fn fetched_since(cursor: Option<Seq<char>>, recs: Seq<NotificationRecord>) -> bool {
    forall|i: int|
        0 <= i < recs.len() && (#[trigger] recs[i]).unread ==> (cursor matches Some(c) ==> lex_le(
            c,
            recs[i].updated_at@,
        ))
}

/// The cursor after a cycle for each batch in turn.
pub open spec fn cursor_after(cursor: Option<Seq<char>>, batches: Seq<Seq<NotificationRecord>>) -> Option<
    Seq<char>,
>
    decreases batches.len(),
{
    if batches.len() == 0 {
        cursor
    } else {
        next_cursor(cursor_after(cursor, batches.drop_last()), batches.last())
    }
}

/// Each batch was fetched since the cursor that stood when it was fetched.
pub open spec fn run_fetched_since(
    cursor: Option<Seq<char>>,
    batches: Seq<Seq<NotificationRecord>>,
) -> bool {
    forall|k: int|
        0 <= k < batches.len() ==> fetched_since(
            cursor_after(cursor, batches.take(k)),
            #[trigger] batches[k],
        )
}

pub proof fn lemma_lex_le_trans(a: Seq<char>, b: Seq<char>, c: Seq<char>)
    requires
        lex_le(a, b),
        lex_le(b, c),
    ensures
        lex_le(a, c),
{
    if a != b && b != c {
        lemma_lex_trans(a, b, c);
    }
}

/// One cycle never moves a cursor backwards: the new cursor is the old one or
/// a timestamp not before it.
pub proof fn lemma_cycle_cursor_monotone(cursor: Seq<char>, recs: Seq<NotificationRecord>)
    requires
        fetched_since(Some(cursor), recs),
    ensures
        next_cursor(Some(cursor), recs) matches Some(c) && lex_le(cursor, c),
{
    lemma_latest_is_max(recs);
    if let Some(t) = latest_of(recs) {
        let w = choose|i: int|
            0 <= i < recs.len() && (#[trigger] recs[i]).unread && recs[i].updated_at@ == t;
        assert(recs[w].unread);
    }
}

/// Over any run of cycles whose batches honour the cursor they were fetched
/// with, a stored cursor never decreases.
pub proof fn lemma_cursor_monotone(cursor: Seq<char>, batches: Seq<Seq<NotificationRecord>>)
    requires
        run_fetched_since(Some(cursor), batches),
    ensures
        cursor_after(Some(cursor), batches) matches Some(c) && lex_le(cursor, c),
    decreases batches.len(),
{
    if batches.len() > 0 {
        let pre = batches.drop_last();
        assert forall|k: int| 0 <= k < pre.len() implies fetched_since(
            cursor_after(Some(cursor), pre.take(k)),
            #[trigger] pre[k],
        ) by {
            assert(pre.take(k) =~= batches.take(k));
            assert(pre[k] == batches[k]);
        }
        lemma_cursor_monotone(cursor, pre);
        let k = batches.len() - 1;
        assert(batches.take(k) =~= pre);
        assert(fetched_since(cursor_after(Some(cursor), pre), batches[k]));
        let mid = cursor_after(Some(cursor), pre)->Some_0;
        lemma_cycle_cursor_monotone(mid, batches.last());
        let end = cursor_after(Some(cursor), batches)->Some_0;
        lemma_lex_le_trans(cursor, mid, end);
    }
}

/// A batch in which every record is read forwards nothing and leaves the
/// cursor as it was.
pub proof fn lemma_read_batch_inert(
    recs: Seq<NotificationRecord>,
    cursor: Option<Seq<char>>,
    cut: Option<Seq<char>>,
)
    requires
        forall|i: int| 0 <= i < recs.len() ==> !(#[trigger] recs[i]).unread,
    ensures
        forwarded(recs, cut).len() == 0,
        skipped_count(recs, cut) == 0,
        next_cursor(cursor, recs) == cursor,
    decreases recs.len(),
{
    lemma_latest_is_max(recs);
    if recs.len() > 0 {
        let pre = recs.drop_last();
        assert forall|i: int| 0 <= i < pre.len() implies !(#[trigger] pre[i]).unread by {
            assert(pre[i] == recs[i]);
        }
        assert(!recs[recs.len() - 1].unread);
        lemma_read_batch_inert(pre, cursor, cut);
    }
}

/// A cycle that fetched nothing forwards nothing and leaves the cursor as it
/// was (and `finish_cycle` never touches the endpoint).
pub proof fn lemma_empty_batch_inert(cursor: Option<Seq<char>>, cut: Option<Seq<char>>)
    ensures
        forwarded(Seq::empty(), cut).len() == 0,
        skipped_count(Seq::empty(), cut) == 0,
        next_cursor(cursor, Seq::empty()) == cursor,
{
}


/// On a first poll at `now`, of two unread records updated 120 and 10 seconds
/// before it, in either order, only the later one is forwarded, the earlier one
/// is held back, and both count towards the cursor, which ends at the later
/// timestamp.
pub proof fn lemma_first_poll_cutoff(now: nat, a: NotificationRecord, b: NotificationRecord)
    requires
        120 <= now <= MAX_FOUR_DIGIT_SECS,
        a.unread,
        b.unread,
        a.updated_at@ == wire_of((now - 120) as nat),
        b.updated_at@ == wire_of((now - 10) as nat),
    ensures
        forwarded(seq![a, b], Some(wire_of((now - FIRST_POLL_WINDOW) as nat))) == seq![b],
        forwarded(seq![b, a], Some(wire_of((now - FIRST_POLL_WINDOW) as nat))) == seq![b],
        skipped_count(seq![a, b], Some(wire_of((now - FIRST_POLL_WINDOW) as nat))) == 1,
        skipped_count(seq![b, a], Some(wire_of((now - FIRST_POLL_WINDOW) as nat))) == 1,
        latest_of(seq![a, b]) == Some(b.updated_at@),
        latest_of(seq![b, a]) == Some(b.updated_at@),
{
    let c = wire_of((now - FIRST_POLL_WINDOW) as nat);
    lemma_wire_strict_order((now - 120) as nat, (now - 60) as nat);
    lemma_wire_strict_order((now - 60) as nat, (now - 10) as nat);
    lemma_wire_strict_order((now - 120) as nat, (now - 10) as nat);
    lemma_lex_asymmetric(c, b.updated_at@);
    lemma_lex_asymmetric(a.updated_at@, b.updated_at@);
    assert(before_cutoff(a, Some(c)));
    assert(!before_cutoff(b, Some(c)));
    let ab = seq![a, b];
    let ba = seq![b, a];
    assert(ab.drop_last() =~= seq![a]);
    assert(ba.drop_last() =~= seq![b]);
    assert(seq![a].drop_last() =~= Seq::<NotificationRecord>::empty());
    assert(seq![b].drop_last() =~= Seq::<NotificationRecord>::empty());
    reveal_with_fuel(forwarded, 3);
    reveal_with_fuel(skipped_count, 3);
    reveal_with_fuel(latest_of, 3);
    assert(forwarded(ab, Some(c)) =~= seq![b]);
    assert(forwarded(ba, Some(c)) =~= seq![b]);
}

} // verus!
