//! The execution-isolation protocol of the counter store.
//!
//! The physical connection is owned by one dedicated context; every caller
//! reaches it by enqueuing a self-contained request and awaiting one reply.
//! This module is that context's decision core: what one request does to the
//! table, what reply it is owed, and what a whole queue, served strictly in
//! submission order, does. The surrounding runtime only moves the requests
//! and replies; every decision it forwards is made here.

use vstd::prelude::*;

use crate::store::CounterStore;
use crate::store::StoreError;
use crate::store::bumped;
use crate::store::count_of;
use crate::store::distinct_codes;
use crate::store::table_of;

verus! {

/// A self-contained unit of work sent to the dedicated writer context. It
/// owns its data outright: nothing borrowed from the caller crosses the
/// channel.
pub enum Request {
    /// Upsert the row for this country code.
    Increment(String),
    /// Snapshot all rows.
    List,
}

/// The answer delivered back over the single-response channel.
pub enum Reply {
    /// The increment was applied.
    Done,
    /// The snapshot a list request produced.
    Rows(Vec<(String, u64)>),
    /// The backend failed; the table the request found is unchanged.
    Failed(StoreError),
}

/// What one request does to the table.
pub open spec fn apply_request(m: Map<Seq<char>, u64>, req: Request) -> Map<Seq<char>, u64> {
    match req {
        Request::Increment(code) => bumped(m, code@),
        Request::List => m,
    }
}

/// What a queue of requests does to the table when served strictly front to
/// back, the order in which the single consumer takes them.
pub open spec fn apply_all(m: Map<Seq<char>, u64>, reqs: Seq<Request>) -> Map<Seq<char>, u64>
    decreases reqs.len(),
{
    if reqs.len() == 0 {
        m
    } else {
        apply_all(apply_request(m, reqs[0]), reqs.drop_first())
    }
}

/// The reply owed to a request served while the table holds `m`.
pub open spec fn reply_matches(rep: Reply, req: Request, m: Map<Seq<char>, u64>) -> bool {
    match req {
        Request::Increment(_) => rep is Done,
        Request::List => rep matches Reply::Rows(rows) && distinct_codes(rows@) && table_of(rows@)
            == m,
    }
}

/// Serves one request on the table the dedicated context owns and forms the
/// reply to send back.
pub fn handle(store: &mut CounterStore, req: &Request) -> (rep: Reply)
    requires
        old(store).wf(),
    ensures
        final(store).wf(),
        final(store)@ == apply_request(old(store)@, *req),
        reply_matches(rep, *req, old(store)@),
{
    match req {
        Request::Increment(code) => match store.increment(code.as_str()) {
            Ok(_) => Reply::Done,
            Err(e) => Reply::Failed(e),
        },
        Request::List => match store.list() {
            Ok(rows) => Reply::Rows(rows),
            Err(e) => Reply::Failed(e),
        },
    }
}

proof fn lemma_apply_all_snoc(m: Map<Seq<char>, u64>, reqs: Seq<Request>, r: Request)
    ensures
        apply_all(m, reqs.push(r)) == apply_request(apply_all(m, reqs), r),
    decreases reqs.len(),
{
    if reqs.len() == 0 {
        assert(reqs.push(r)[0] == r);
        assert(reqs.push(r).drop_first() =~= Seq::<Request>::empty());
        assert(apply_all(m, reqs.push(r)) == apply_all(
            apply_request(m, r),
            Seq::<Request>::empty(),
        ));
    } else {
        assert(reqs.push(r)[0] == reqs[0]);
        assert(reqs.push(r).drop_first() =~= reqs.drop_first().push(r));
        assert(apply_all(m, reqs.push(r)) == apply_all(
            apply_request(m, reqs[0]),
            reqs.drop_first().push(r),
        ));
        lemma_apply_all_snoc(apply_request(m, reqs[0]), reqs.drop_first(), r);
        assert(apply_all(m, reqs) == apply_all(apply_request(m, reqs[0]), reqs.drop_first()));
    }
}

proof fn lemma_apply_all_take_step(m: Map<Seq<char>, u64>, reqs: Seq<Request>, i: int)
    requires
        0 <= i < reqs.len(),
    ensures
        apply_all(m, reqs.take(i + 1)) == apply_request(apply_all(m, reqs.take(i)), reqs[i]),
{
    assert(reqs.take(i + 1) =~= reqs.take(i).push(reqs[i]));
    lemma_apply_all_snoc(m, reqs.take(i), reqs[i]);
}

/// Serves a whole queue strictly in submission order, one request at a time,
/// the way the single consumer drains its channel. Each reply reflects the
/// table exactly as the preceding requests left it.
pub fn handle_all(store: &mut CounterStore, reqs: Vec<Request>) -> (reps: Vec<Reply>)
    requires
        old(store).wf(),
    ensures
        final(store).wf(),
        final(store)@ == apply_all(old(store)@, reqs@),
        reps@.len() == reqs@.len(),
        forall|i: int|
            0 <= i < reqs@.len() ==> reply_matches(
                reps@[i],
                reqs@[i],
                apply_all(old(store)@, reqs@.take(i)),
            ),
{
    let mut reps: Vec<Reply> = Vec::new();
    let mut i: usize = 0;
    while i < reqs.len()
        invariant
            store.wf(),
            i <= reqs@.len(),
            reps@.len() == i,
            store@ == apply_all(old(store)@, reqs@.take(i as int)),
            forall|j: int|
                0 <= j < i ==> reply_matches(
                    reps@[j],
                    reqs@[j],
                    apply_all(old(store)@, reqs@.take(j)),
                ),
        decreases reqs@.len() - i,
    {
        proof {
            lemma_apply_all_take_step(old(store)@, reqs@, i as int);
        }
        let rep = handle(store, &reqs[i]);
        reps.push(rep);
        i += 1;
    }
    proof {
        assert(reqs@.take(reqs@.len() as int) =~= reqs@);
    }
    reps
}

/// The table after `n` increments of one code.
pub open spec fn repeat_bump(m: Map<Seq<char>, u64>, code: Seq<char>, n: nat) -> Map<
    Seq<char>,
    u64,
>
    decreases n,
{
    if n == 0 {
        m
    } else {
        bumped(repeat_bump(m, code, (n - 1) as nat), code)
    }
}

proof fn lemma_repeat_bump_shift(m: Map<Seq<char>, u64>, code: Seq<char>, k: nat)
    ensures
        repeat_bump(bumped(m, code), code, k) == repeat_bump(m, code, (k + 1) as nat),
    decreases k,
{
    if k == 0 {
        assert(repeat_bump(m, code, 1) == bumped(repeat_bump(m, code, 0), code));
    } else {
        lemma_repeat_bump_shift(m, code, (k - 1) as nat);
        assert(repeat_bump(bumped(m, code), code, k) == bumped(
            repeat_bump(bumped(m, code), code, (k - 1) as nat),
            code,
        ));
        assert(repeat_bump(m, code, (k + 1) as nat) == bumped(repeat_bump(m, code, k), code));
    }
}

/// A queue that holds nothing but increments for one code drives the table
/// through exactly that many increments, whatever it held before.
pub proof fn lemma_increment_queue(m: Map<Seq<char>, u64>, reqs: Seq<Request>, code: Seq<char>)
    requires
        forall|i: int|
            0 <= i < reqs.len() ==> ((#[trigger] reqs[i]) matches Request::Increment(c) && c@
                == code),
    ensures
        apply_all(m, reqs) == repeat_bump(m, code, reqs.len()),
    decreases reqs.len(),
{
    if reqs.len() > 0 {
        assert(reqs[0] matches Request::Increment(c) && c@ == code);
        assert forall|i: int|
            0 <= i < reqs.drop_first().len() implies ((#[trigger] reqs.drop_first()[i]) matches Request::Increment(
            c,
        ) && c@ == code) by {
            assert(reqs.drop_first()[i] == reqs[i + 1]);
        }
        lemma_increment_queue(bumped(m, code), reqs.drop_first(), code);
        lemma_repeat_bump_shift(m, code, reqs.drop_first().len());
    }
}

/// No lost updates: `n` increments for one code, served in submission order,
/// raise that code's count by exactly `n`, for any `n` that keeps the count
/// within 64 bits.
pub proof fn lemma_no_lost_updates(m: Map<Seq<char>, u64>, code: Seq<char>, n: nat)
    requires
        count_of(m, code) + n <= u64::MAX,
    ensures
        count_of(repeat_bump(m, code, n), code) == count_of(m, code) + n,
    decreases n,
{
    if n > 0 {
        lemma_no_lost_updates(m, code, (n - 1) as nat);
    }
}

/// Ordering under concurrency, end to end: however many callers dispatched
/// them, a queue of `n` increments for one code, served strictly in
/// submission order, leaves that code's count exactly `n` higher — none is
/// lost — for any `n` that keeps the count within 64 bits.
pub proof fn lemma_ordered_increments_count(
    m: Map<Seq<char>, u64>,
    reqs: Seq<Request>,
    code: Seq<char>,
)
    requires
        forall|i: int|
            0 <= i < reqs.len() ==> ((#[trigger] reqs[i]) matches Request::Increment(c) && c@
                == code),
        count_of(m, code) + reqs.len() <= u64::MAX,
    ensures
        count_of(apply_all(m, reqs), code) == count_of(m, code) + reqs.len(),
{
    lemma_increment_queue(m, reqs, code);
    lemma_no_lost_updates(m, code, reqs.len());
}

} // verus!
