//! The retry queue: transactions waiting to be confirmed, each with the number
//! of retries it has left.

use crate::signature::TxSignature;
use vstd::prelude::*;

verus! {

/// How many wire transactions go into one batch when the queue is retried.
pub const RETRY_BATCH_SIZE: usize = 10;

/// How often the queue is retried, in milliseconds (about the time a
/// transaction takes to be confirmed).
pub const RETRY_INTERVAL_MS: u64 = 800;

/// A queued transaction as the contracts see it.
pub struct PendingView {
    pub signature: Seq<u8>,
    pub wire: Seq<u8>,
    pub retries: u16,
}

/// A queued transaction: its signature, its wire bytes and the retries it has left.
pub struct PendingTx {
    pub signature: TxSignature,
    pub wire: Vec<u8>,
    pub retries: u16,
}

impl View for PendingTx {
    type V = PendingView;

    open spec fn view(&self) -> PendingView {
        PendingView { signature: self.signature@, wire: self.wire@, retries: self.retries }
    }
}

/// No signature occurs twice in the queue.
pub open spec fn distinct_signatures(q: Seq<PendingView>) -> bool {
    forall|i: int, j: int| 0 <= i < q.len() && 0 <= j < q.len() && i != j
        ==> #[trigger] q[i].signature != #[trigger] q[j].signature
}

/// Some entry of the queue has this signature.
pub open spec fn has_signature(q: Seq<PendingView>, sig: Seq<u8>) -> bool {
    exists|i: int| 0 <= i < q.len() && #[trigger] q[i].signature == sig
}

/// The position of the entry with this signature (meaningful where there is one).
pub open spec fn position_of(q: Seq<PendingView>, sig: Seq<u8>) -> int {
    choose|i: int| 0 <= i < q.len() && #[trigger] q[i].signature == sig
}

/// The queue after `p` is put in it: at the end, unless an entry with the
/// same signature is already waiting, in which case the queue stays as it is.
pub open spec fn enqueued(q: Seq<PendingView>, p: PendingView) -> Seq<PendingView> {
    if has_signature(q, p.signature) {
        q
    } else {
        q.push(p)
    }
}

/// An entry after one retry round in which it had retries left.
pub open spec fn retried(p: PendingView) -> PendingView {
    PendingView { signature: p.signature, wire: p.wire, retries: (p.retries - 1) as u16 }
}

/// The queue after a retry round: each entry with retries left stays, in its
/// place and with one retry fewer; each entry with none left is dropped.
pub open spec fn survivors(q: Seq<PendingView>) -> Seq<PendingView> {
    q.filter(|p: PendingView| p.retries > 0).map_values(|p: PendingView| retried(p))
}

/// A retry round, entry by entry from the back of the queue.
pub proof fn lemma_survivors_step(q: Seq<PendingView>)
    ensures
        q.len() == 0 ==> survivors(q) == Seq::<PendingView>::empty(),
        q.len() > 0 ==> survivors(q) == (if q.last().retries > 0 {
            survivors(q.drop_last()).push(retried(q.last()))
        } else {
            survivors(q.drop_last())
        }),
{
    reveal_with_fuel(Seq::<_>::filter, 1);
    if q.len() == 0 {
        assert(survivors(q) =~= Seq::<PendingView>::empty());
    } else if q.last().retries > 0 {
        assert(survivors(q) =~= survivors(q.drop_last()).push(retried(q.last())));
    } else {
        assert(survivors(q) =~= survivors(q.drop_last()));
    }
}

/// The wire bytes of the queued transactions, in queue order.
pub open spec fn wires(q: Seq<PendingView>) -> Seq<Seq<u8>> {
    q.map_values(|p: PendingView| p.wire)
}

/// How many batches `n` transactions make.
pub open spec fn batch_count(n: int) -> int {
    (n + RETRY_BATCH_SIZE - 1) / RETRY_BATCH_SIZE as int
}

/// The end of batch `b` among `n` transactions.
pub open spec fn batch_end(n: int, b: int) -> int {
    if RETRY_BATCH_SIZE * b + RETRY_BATCH_SIZE < n {
        RETRY_BATCH_SIZE * b + RETRY_BATCH_SIZE
    } else {
        n
    }
}

/// The transactions cut, in order, into batches of `RETRY_BATCH_SIZE`, the
/// last of which may be shorter.
pub open spec fn retry_batches(w: Seq<Seq<u8>>) -> Seq<Seq<Seq<u8>>> {
    Seq::new(
        batch_count(w.len() as int) as nat,
        |b: int| w.subrange(RETRY_BATCH_SIZE * b, batch_end(w.len() as int, b)),
    )
}

/// Cutting one more transaction into batches either opens a new batch with
/// it or adds it to the end of the last one.
proof fn lemma_batches_push(w: Seq<Seq<u8>>, x: Seq<u8>)
    ensures
        w.len() % (RETRY_BATCH_SIZE as nat) == 0 ==> retry_batches(w.push(x)) == retry_batches(
            w,
        ).push(seq![x]),
        w.len() % (RETRY_BATCH_SIZE as nat) != 0 ==> retry_batches(w.push(x)) == retry_batches(
            w,
        ).update(
            retry_batches(w).len() - 1,
            retry_batches(w).last().push(x),
        ),
{
    let n = w.len() as int;
    let w2 = w.push(x);
    let b1 = retry_batches(w);
    let b2 = retry_batches(w2);
    if n % 10 == 0 {
        assert(batch_count(n) == n / 10);
        assert(batch_count(n + 1) == n / 10 + 1);
        let e = b1.push(seq![x]);
        assert forall|b: int| 0 <= b < b2.len() implies b2[b] == e[b] by {
            if b < n / 10 {
                assert(batch_end(n + 1, b) == batch_end(n, b));
                assert(b2[b] =~= b1[b]);
            } else {
                assert(b == n / 10);
                assert(b2[b] =~= seq![x]);
            }
        }
        assert(b2 =~= e);
    } else {
        assert(batch_count(n) == n / 10 + 1);
        assert(batch_count(n + 1) == n / 10 + 1);
        let k = n / 10;
        let e = b1.update(b1.len() - 1, b1.last().push(x));
        assert forall|b: int| 0 <= b < b2.len() implies b2[b] == e[b] by {
            if b < k {
                assert(batch_end(n + 1, b) == batch_end(n, b));
                assert(b2[b] =~= b1[b]);
            } else {
                assert(b == k);
                assert(batch_end(n, b) == n);
                assert(batch_end(n + 1, b) == n + 1);
                assert(b2[b] =~= b1[b].push(x));
            }
        }
        assert(b2 =~= e);
    }
}

/// Every entry left after a retry round is an entry of the queue before it,
/// which had retries left, with one retry fewer.
pub proof fn lemma_survivors_come_from_queue(q: Seq<PendingView>)
    ensures
        survivors(q).len() <= q.len(),
        forall|k: int|
            0 <= k < survivors(q).len() ==> exists|i: int|
                0 <= i < q.len() && q[i].retries > 0 && #[trigger] survivors(q)[k] == retried(
                    q[i],
                ),
    decreases q.len(),
{
    lemma_survivors_step(q);
    if q.len() > 0 {
        let r = q.drop_last();
        lemma_survivors_come_from_queue(r);
        assert forall|k: int| 0 <= k < survivors(q).len() implies exists|i: int|
            0 <= i < q.len() && q[i].retries > 0 && #[trigger] survivors(q)[k] == retried(q[i]) by {
            if k < survivors(r).len() {
                let i = choose|i: int|
                    0 <= i < r.len() && r[i].retries > 0 && #[trigger] survivors(r)[k] == retried(
                        r[i],
                    );
                assert(q[i] == r[i]);
            } else {
                assert(q[q.len() - 1] == q.last());
            }
        }
    }
}

/// A retry round keeps the signatures distinct.
pub proof fn lemma_survivors_distinct(q: Seq<PendingView>)
    requires
        distinct_signatures(q),
    ensures
        distinct_signatures(survivors(q)),
    decreases q.len(),
{
    lemma_survivors_step(q);
    if q.len() > 0 {
        let r = q.drop_last();
        assert(distinct_signatures(r));
        lemma_survivors_distinct(r);
        lemma_survivors_come_from_queue(r);
        let s = survivors(q);
        if q.last().retries > 0 {
            assert forall|k: int| 0 <= k < survivors(r).len() implies #[trigger] survivors(
                r,
            )[k].signature != q.last().signature by {
                let i = choose|i: int|
                    0 <= i < r.len() && r[i].retries > 0 && #[trigger] survivors(r)[k] == retried(
                        r[i],
                    );
                assert(q[i] == r[i]);
                assert(q[q.len() - 1] == q.last());
            }
            assert forall|i: int, j: int|
                0 <= i < s.len() && 0 <= j < s.len() && i != j implies #[trigger] s[i].signature
                != #[trigger] s[j].signature by {
                if i < s.len() - 1 && j < s.len() - 1 {
                    assert(s[i] == survivors(r)[i]);
                    assert(s[j] == survivors(r)[j]);
                } else if i < s.len() - 1 {
                    assert(s[i] == survivors(r)[i]);
                } else {
                    assert(s[j] == survivors(r)[j]);
                }
            }
        }
    }
}

/// The entry queued under a signature, if there is one.
pub open spec fn entry_for(q: Seq<PendingView>, sig: Seq<u8>) -> Option<PendingView> {
    if has_signature(q, sig) {
        Some(q[position_of(q, sig)])
    } else {
        None
    }
}

/// The transactions of the queue that are not among the confirmed
/// signatures, in queue order.
pub open spec fn unconfirmed(q: Seq<PendingView>, confirmed: Seq<Seq<u8>>) -> Seq<PendingView> {
    q.filter(|p: PendingView| !confirmed.contains(p.signature))
}

/// One retry round that sees the given signatures confirmed.
pub open spec fn round(q: Seq<PendingView>, confirmed: Seq<Seq<u8>>) -> Seq<PendingView> {
    survivors(unconfirmed(q, confirmed))
}

/// The queue after a retry round for each of the given sets of confirmed
/// signatures, in turn.
pub open spec fn after_rounds(q: Seq<PendingView>, confirmations: Seq<Seq<Seq<u8>>>) -> Seq<
    PendingView,
>
    decreases confirmations.len(),
{
    if confirmations.len() == 0 {
        q
    } else {
        round(after_rounds(q, confirmations.drop_last()), confirmations.last())
    }
}

/// No round among these sees the signature confirmed.
pub open spec fn never_confirmed(confirmations: Seq<Seq<Seq<u8>>>, sig: Seq<u8>) -> bool {
    forall|j: int| 0 <= j < confirmations.len() ==> !#[trigger] confirmations[j].contains(sig)
}

/// Leaving out the confirmed transactions, entry by entry from the back.
pub proof fn lemma_unconfirmed_step(q: Seq<PendingView>, confirmed: Seq<Seq<u8>>)
    ensures
        q.len() == 0 ==> unconfirmed(q, confirmed) == Seq::<PendingView>::empty(),
        q.len() > 0 ==> unconfirmed(q, confirmed) == (if !confirmed.contains(q.last().signature) {
            unconfirmed(q.drop_last(), confirmed).push(q.last())
        } else {
            unconfirmed(q.drop_last(), confirmed)
        }),
{
    reveal_with_fuel(Seq::<_>::filter, 1);
}

/// Leaving out the confirmed transactions, seen from one signature: a
/// confirmed one is gone, any other stays as it was; the signatures stay
/// distinct.
pub proof fn lemma_unconfirmed_entry(q: Seq<PendingView>, confirmed: Seq<Seq<u8>>, sig: Seq<u8>)
    requires
        distinct_signatures(q),
    ensures
        distinct_signatures(unconfirmed(q, confirmed)),
        entry_for(unconfirmed(q, confirmed), sig) == (if confirmed.contains(sig) {
            None
        } else {
            entry_for(q, sig)
        }),
    decreases q.len(),
{
    lemma_unconfirmed_step(q, confirmed);
    if q.len() == 0 {
        assert(!has_signature(unconfirmed(q, confirmed), sig));
        assert(!has_signature(q, sig));
    } else {
        let r = q.drop_last();
        let l = q.last();
        assert(distinct_signatures(r));
        assert(r.push(l) =~= q);
        lemma_unconfirmed_entry(r, confirmed, sig);
        lemma_entry_for_push(r, l, sig);
        let u = unconfirmed(r, confirmed);
        if !confirmed.contains(l.signature) {
            assert(!has_signature(u, l.signature)) by {
                if has_signature(u, l.signature) {
                    lemma_unconfirmed_entry(r, confirmed, l.signature);
                    let i = position_of(r, l.signature);
                    assert(q[i] == r[i]);
                    assert(q[q.len() - 1] == l);
                }
            }
            assert forall|a: int, b: int|
                0 <= a < u.push(l).len() && 0 <= b < u.push(l).len() && a != b implies #[trigger] u.push(
                l,
            )[a].signature != #[trigger] u.push(l)[b].signature by {
                if a < u.len() && b < u.len() {
                    assert(u.push(l)[a] == u[a] && u.push(l)[b] == u[b]);
                } else if a < u.len() {
                    assert(u.push(l)[a] == u[a]);
                } else {
                    assert(u.push(l)[b] == u[b]);
                }
            }
            lemma_entry_for_push(u, l, sig);
        }
        if sig == l.signature {
            assert(!has_signature(r, sig)) by {
                if has_signature(r, sig) {
                    let i = position_of(r, sig);
                    assert(q[i] == r[i]);
                    assert(q[q.len() - 1] == l);
                }
            }
        }
    }
}

/// A retry round that sees the signatures `confirmed`, seen from one
/// signature: a confirmed entry is dropped; any other with retries left stays
/// with one fewer, one with none left goes; no entry appears.
pub proof fn lemma_round_with_confirmations(
    q: Seq<PendingView>,
    confirmed: Seq<Seq<u8>>,
    sig: Seq<u8>,
)
    requires
        distinct_signatures(q),
    ensures
        distinct_signatures(round(q, confirmed)),
        entry_for(round(q, confirmed), sig) == (if confirmed.contains(sig) {
            None
        } else {
            match entry_for(q, sig) {
                Some(p) => if p.retries > 0 {
                    Some(retried(p))
                } else {
                    None
                },
                None => None,
            }
        }),
{
    lemma_unconfirmed_entry(q, confirmed, sig);
    lemma_survivors_distinct(unconfirmed(q, confirmed));
    lemma_round_entry(unconfirmed(q, confirmed), sig);
}

/// An entry with `r` retries left, after `k <= r` further rounds.
pub open spec fn after_retries(p: PendingView, k: nat) -> PendingView {
    PendingView { signature: p.signature, wire: p.wire, retries: (p.retries - k) as u16 }
}

proof fn lemma_entry_for_push(s: Seq<PendingView>, x: PendingView, sig: Seq<u8>)
    requires
        distinct_signatures(s.push(x)),
    ensures
        entry_for(s.push(x), sig) == (if sig == x.signature {
            Some(x)
        } else {
            entry_for(s, sig)
        }),
{
    let t = s.push(x);
    assert(t[s.len() as int] == x);
    if sig == x.signature {
        assert(has_signature(t, sig));
        let i = position_of(t, sig);
        if i != s.len() {
            assert(t[i].signature == t[s.len() as int].signature);
        }
    } else {
        if has_signature(t, sig) {
            let i = position_of(t, sig);
            assert(i < s.len());
            assert(s[i] == t[i]);
            assert(has_signature(s, sig));
            let j = position_of(s, sig);
            assert(t[j] == s[j]);
            if i != j {
                assert(t[i].signature == t[j].signature);
            }
        } else {
            if has_signature(s, sig) {
                let j = position_of(s, sig);
                assert(t[j] == s[j]);
            }
        }
    }
}

/// One retry round, seen from one signature: an entry with retries left stays
/// with one fewer, an entry with none left goes, and no entry appears.
pub proof fn lemma_round_entry(q: Seq<PendingView>, sig: Seq<u8>)
    requires
        distinct_signatures(q),
    ensures
        entry_for(survivors(q), sig) == (match entry_for(q, sig) {
            Some(p) => if p.retries > 0 {
                Some(retried(p))
            } else {
                None
            },
            None => None,
        }),
    decreases q.len(),
{
    lemma_survivors_step(q);
    if q.len() == 0 {
        assert(!has_signature(survivors(q), sig));
        assert(!has_signature(q, sig));
    } else {
        let r = q.drop_last();
        let l = q.last();
        assert(distinct_signatures(r));
        assert(r.push(l) =~= q);
        lemma_round_entry(r, sig);
        lemma_entry_for_push(r, l, sig);
        lemma_survivors_distinct(q);
        if l.retries > 0 {
            lemma_entry_for_push(survivors(r), retried(l), sig);
        }
        if sig == l.signature {
            assert(!has_signature(r, sig)) by {
                if has_signature(r, sig) {
                    let i = position_of(r, sig);
                    assert(q[i] == r[i]);
                    assert(q[q.len() - 1] == l);
                }
            }
        }
    }
}

/// Retries run out: an entry with `r` retries left is still queued, with the
/// same wire bytes and `r - k` retries, after `k <= r` rounds none of which
/// sees it confirmed; it is gone after `r + 1` rounds or more, or once a
/// round has seen it confirmed.
pub proof fn lemma_retries_exhaust(
    q: Seq<PendingView>,
    sig: Seq<u8>,
    confirmations: Seq<Seq<Seq<u8>>>,
)
    requires
        distinct_signatures(q),
        entry_for(q, sig) is Some,
    ensures
        distinct_signatures(after_rounds(q, confirmations)),
        confirmations.len() <= entry_for(q, sig).unwrap().retries && never_confirmed(
            confirmations,
            sig,
        ) ==> entry_for(after_rounds(q, confirmations), sig) == Some(
            after_retries(entry_for(q, sig).unwrap(), confirmations.len()),
        ),
        confirmations.len() > entry_for(q, sig).unwrap().retries || !never_confirmed(
            confirmations,
            sig,
        ) ==> entry_for(after_rounds(q, confirmations), sig) is None,
    decreases confirmations.len(),
{
    let p = entry_for(q, sig).unwrap();
    if confirmations.len() == 0 {
        assert(after_retries(p, 0) == p);
    } else {
        let earlier = confirmations.drop_last();
        lemma_retries_exhaust(q, sig, earlier);
        let prev = after_rounds(q, earlier);
        lemma_round_with_confirmations(prev, confirmations.last(), sig);
        if never_confirmed(confirmations, sig) {
            assert(never_confirmed(earlier, sig)) by {
                assert forall|j: int| 0 <= j < earlier.len() implies !#[trigger] earlier[j].contains(
                    sig,
                ) by {
                    assert(earlier[j] == confirmations[j]);
                }
            }
            assert(!confirmations[confirmations.len() - 1].contains(sig));
        } else if !never_confirmed(earlier, sig) {
        } else {
            let j = choose|j: int| 0 <= j < confirmations.len() && #[trigger] confirmations[j].contains(sig);
            if j < earlier.len() {
                assert(earlier[j] == confirmations[j]);
            }
        }
    }
}

/// Putting an entry in the queue keeps the signatures distinct, files the
/// entry under its signature where none was waiting under it, and leaves every
/// entry that was waiting as it was.
pub proof fn lemma_enqueued_entry(q: Seq<PendingView>, p: PendingView, sig: Seq<u8>)
    requires
        distinct_signatures(q),
    ensures
        distinct_signatures(enqueued(q, p)),
        entry_for(enqueued(q, p), sig) == (if sig == p.signature && !has_signature(q, sig) {
            Some(p)
        } else {
            entry_for(q, sig)
        }),
{
    if !has_signature(q, p.signature) {
        assert forall|a: int, b: int|
            0 <= a < q.push(p).len() && 0 <= b < q.push(p).len() && a != b implies #[trigger] q.push(
            p,
        )[a].signature != #[trigger] q.push(p)[b].signature by {
            if a < q.len() && b < q.len() {
            } else if a < q.len() {
                assert(q.push(p)[a] == q[a]);
            } else {
                assert(q.push(p)[b] == q[b]);
            }
        }
        lemma_entry_for_push(q, p, sig);
    }
}

/// A transaction queued with `r` retries while none with its signature was
/// waiting, and not confirmed in any of the rounds that follow, is still
/// waiting after each of the next `r` rounds, with one retry fewer each time,
/// and is dropped by round `r + 1`; a round that sees it confirmed drops it.
pub proof fn lemma_enqueued_then_retried(
    q: Seq<PendingView>,
    p: PendingView,
    confirmations: Seq<Seq<Seq<u8>>>,
)
    requires
        distinct_signatures(q),
        !has_signature(q, p.signature),
    ensures
        confirmations.len() <= p.retries && never_confirmed(confirmations, p.signature) ==> entry_for(
            after_rounds(enqueued(q, p), confirmations),
            p.signature,
        ) == Some(after_retries(p, confirmations.len())),
        confirmations.len() > p.retries || !never_confirmed(confirmations, p.signature)
            ==> entry_for(after_rounds(enqueued(q, p), confirmations), p.signature) is None,
{
    lemma_enqueued_entry(q, p, p.signature);
    lemma_retries_exhaust(enqueued(q, p), p.signature, confirmations);
}

/// The batches of a round hold every queued transaction once, in queue
/// order, and none is empty or longer than `RETRY_BATCH_SIZE`.
pub proof fn lemma_batches_partition(w: Seq<Seq<u8>>)
    ensures
        retry_batches(w).flatten() == w,
        forall|b: int|
            0 <= b < retry_batches(w).len() ==> 0 < #[trigger] retry_batches(w)[b].len()
                <= RETRY_BATCH_SIZE,
    decreases w.len(),
{
    if w.len() == 0 {
        assert(retry_batches(w).len() == 0);
        assert(retry_batches(w).flatten() =~= w);
    } else {
        let r = w.drop_last();
        let x = w.last();
        assert(r.push(x) =~= w);
        lemma_batches_partition(r);
        lemma_batches_push(r, x);
        let b = retry_batches(r);
        if r.len() % (RETRY_BATCH_SIZE as nat) == 0 {
            b.lemma_flatten_push(seq![x]);
            assert(b.flatten() + seq![x] =~= r.push(x));
        } else {
            let front = b.drop_last();
            assert(front.push(b.last()) =~= b);
            front.lemma_flatten_push(b.last());
            front.lemma_flatten_push(b.last().push(x));
            assert(b.update(b.len() - 1, b.last().push(x)) =~= front.push(b.last().push(x)));
            assert(front.flatten() + b.last().push(x) =~= (front.flatten() + b.last()).push(x));
        }
        assert forall|k: int|
            0 <= k < retry_batches(w).len() implies 0 < #[trigger] retry_batches(w)[k].len()
            <= RETRY_BATCH_SIZE by {
            let n = w.len() as int;
            assert(RETRY_BATCH_SIZE * k < n);
            assert(batch_end(n, k) - RETRY_BATCH_SIZE * k <= RETRY_BATCH_SIZE);
        }
    }
}

/// What a round sends comes only from transactions it did not see
/// confirmed: each wire it batches is that of a queued entry whose signature
/// is not among the confirmed ones.
pub proof fn lemma_sent_are_unconfirmed(q: Seq<PendingView>, confirmed: Seq<Seq<u8>>)
    ensures
        forall|k: int|
            0 <= k < wires(unconfirmed(q, confirmed)).len() ==> exists|i: int|
                0 <= i < q.len() && !confirmed.contains(q[i].signature) && #[trigger] wires(
                    unconfirmed(q, confirmed),
                )[k] == q[i].wire,
    decreases q.len(),
{
    lemma_unconfirmed_step(q, confirmed);
    if q.len() > 0 {
        let r = q.drop_last();
        lemma_sent_are_unconfirmed(r, confirmed);
        let u = unconfirmed(q, confirmed);
        assert forall|k: int| 0 <= k < wires(u).len() implies exists|i: int|
            0 <= i < q.len() && !confirmed.contains(q[i].signature) && #[trigger] wires(u)[k]
                == q[i].wire by {
            if k < wires(unconfirmed(r, confirmed)).len() {
                let i = choose|i: int|
                    0 <= i < r.len() && !confirmed.contains(r[i].signature) && #[trigger] wires(
                        unconfirmed(r, confirmed),
                    )[k] == r[i].wire;
                assert(q[i] == r[i]);
                assert(wires(u)[k] == u[k].wire);
                assert(u[k] == unconfirmed(r, confirmed)[k]);
            } else {
                assert(q[q.len() - 1] == q.last());
            }
        }
    }
}

/// The wires of a queue are its entries' wire bytes, one per entry, in
/// queue order.
pub proof fn lemma_wires_are_entries(q: Seq<PendingView>)
    ensures
        wires(q).len() == q.len(),
        forall|i: int| 0 <= i < q.len() ==> #[trigger] wires(q)[i] == q[i].wire,
{
}

/// The transactions a round leaves out as confirmed are exactly those whose
/// signature is listed: every entry kept is an entry of the queue, in the
/// same relative order, with an unlisted signature, and every entry of the
/// queue with an unlisted signature is kept.
pub proof fn lemma_unconfirmed_are_unlisted(q: Seq<PendingView>, confirmed: Seq<Seq<u8>>)
    ensures
        unconfirmed(q, confirmed).len() <= q.len(),
        forall|k: int|
            0 <= k < unconfirmed(q, confirmed).len() ==> !confirmed.contains(
                #[trigger] unconfirmed(q, confirmed)[k].signature,
            ),
        forall|k: int|
            0 <= k < unconfirmed(q, confirmed).len() ==> exists|i: int|
                0 <= i < q.len() && #[trigger] unconfirmed(q, confirmed)[k] == q[i],
        forall|i: int|
            0 <= i < q.len() && !confirmed.contains(q[i].signature) ==> exists|k: int|
                0 <= k < unconfirmed(q, confirmed).len() && #[trigger] unconfirmed(q, confirmed)[k]
                    == q[i],
        (forall|i: int| 0 <= i < q.len() ==> !confirmed.contains(#[trigger] q[i].signature))
            ==> unconfirmed(q, confirmed) == q,
    decreases q.len(),
{
    lemma_unconfirmed_step(q, confirmed);
    if q.len() > 0 {
        let r = q.drop_last();
        let l = q.last();
        lemma_unconfirmed_are_unlisted(r, confirmed);
        let u = unconfirmed(q, confirmed);
        let ur = unconfirmed(r, confirmed);
        assert forall|k: int| 0 <= k < u.len() implies !confirmed.contains(#[trigger] u[k].signature) by {
            if k < ur.len() {
                assert(u[k] == ur[k]);
            }
        }
        assert forall|k: int| 0 <= k < u.len() implies exists|i: int|
            0 <= i < q.len() && #[trigger] u[k] == q[i] by {
            if k < ur.len() {
                assert(u[k] == ur[k]);
                let i = choose|i: int| 0 <= i < r.len() && #[trigger] ur[k] == r[i];
                assert(q[i] == r[i]);
            } else {
                assert(u[k] == q[q.len() - 1]);
            }
        }
        assert forall|i: int| 0 <= i < q.len() && !confirmed.contains(q[i].signature) implies exists|
            k: int,
        | 0 <= k < u.len() && #[trigger] u[k] == q[i] by {
            if i < r.len() {
                assert(q[i] == r[i]);
                let k = choose|k: int| 0 <= k < ur.len() && #[trigger] ur[k] == r[i];
                assert(u[k] == ur[k]);
            } else {
                assert(q[i] == l);
                assert(u[u.len() - 1] == l);
            }
        }
        if forall|i: int| 0 <= i < q.len() ==> !confirmed.contains(#[trigger] q[i].signature) {
            assert forall|i: int| 0 <= i < r.len() implies !confirmed.contains(
                #[trigger] r[i].signature,
            ) by {
                assert(r[i] == q[i]);
            }
            assert(!confirmed.contains(q[q.len() - 1].signature));
            assert(r.push(l) =~= q);
        }
    }
}

/// What a round sends is every transaction it does not see confirmed, each
/// once and in queue order, cut into batches of at most `RETRY_BATCH_SIZE`:
/// the batches, one after another, hold exactly the wires of the unlisted
/// entries.
pub proof fn lemma_round_sends_every_unconfirmed(q: Seq<PendingView>, confirmed: Seq<Seq<u8>>)
    ensures
        retry_batches(wires(unconfirmed(q, confirmed))).flatten().len() == unconfirmed(
            q,
            confirmed,
        ).len(),
        forall|k: int|
            0 <= k < unconfirmed(q, confirmed).len() ==> #[trigger] retry_batches(
                wires(unconfirmed(q, confirmed)),
            ).flatten()[k] == unconfirmed(q, confirmed)[k].wire,
        forall|b: int|
            0 <= b < retry_batches(wires(unconfirmed(q, confirmed))).len() ==> 0
                < #[trigger] retry_batches(wires(unconfirmed(q, confirmed)))[b].len()
                <= RETRY_BATCH_SIZE,
        (forall|i: int| 0 <= i < q.len() ==> !confirmed.contains(#[trigger] q[i].signature))
            ==> retry_batches(wires(unconfirmed(q, confirmed))).flatten().len() == q.len(),
{
    let u = unconfirmed(q, confirmed);
    lemma_batches_partition(wires(u));
    lemma_wires_are_entries(u);
    lemma_unconfirmed_are_unlisted(q, confirmed);
}

/// A round whose confirmed list holds a queued signature drops that entry
/// and sends nothing queued under it: no entry it sends has that signature.
pub proof fn lemma_listed_confirmation_drops(q: Seq<PendingView>, list: Seq<TxSignature>, j: int)
    requires
        distinct_signatures(q),
        0 <= j < list.len(),
    ensures
        entry_for(round(q, signature_views(list)), list[j]@) is None,
        forall|k: int|
            0 <= k < unconfirmed(q, signature_views(list)).len() ==> #[trigger] unconfirmed(
                q,
                signature_views(list),
            )[k].signature != list[j]@,
{
    lemma_signature_views_exact(list);
    assert(signature_views(list)[j] == list[j]@);
    assert(signature_views(list).contains(list[j]@));
    lemma_round_with_confirmations(q, signature_views(list), list[j]@);
    lemma_unconfirmed_are_unlisted(q, signature_views(list));
}

/// A round on an empty queue sends nothing and leaves the queue empty.
pub proof fn lemma_idle_round(confirmed: Seq<Seq<u8>>)
    ensures
        retry_batches(wires(unconfirmed(Seq::<PendingView>::empty(), confirmed))).len() == 0,
        round(Seq::<PendingView>::empty(), confirmed) == Seq::<PendingView>::empty(),
{
    lemma_unconfirmed_step(Seq::<PendingView>::empty(), confirmed);
    lemma_survivors_step(Seq::<PendingView>::empty());
}

/// The entries as the contracts see them.
pub open spec fn entry_views(entries: Seq<PendingTx>) -> Seq<PendingView> {
    entries.map_values(|p: PendingTx| p@)
}

/// The signatures' bytes.
pub open spec fn signature_views(sigs: Seq<TxSignature>) -> Seq<Seq<u8>> {
    sigs.map_values(|s: TxSignature| s@)
}

/// A list of signatures is seen by each signature's own bytes, in list order.
pub proof fn lemma_signature_views_exact(sigs: Seq<TxSignature>)
    ensures
        signature_views(sigs).len() == sigs.len(),
        forall|j: int| 0 <= j < sigs.len() ==> #[trigger] signature_views(sigs)[j] == sigs[j]@,
{
}

/// Whether the signature is among those listed.
fn is_listed(sig: &TxSignature, list: &Vec<TxSignature>) -> (res: bool)
    ensures
        res == signature_views(list@).contains(sig@),
        res <==> exists|j: int| 0 <= j < list.len() && #[trigger] list@[j]@ == sig@,
{
    let n = list.len();
    let mut i: usize = 0;
    while i < n
        invariant
            n == list.len(),
            0 <= i <= n,
            forall|j: int| 0 <= j < i ==> #[trigger] list@[j]@ != sig@,
        decreases n - i,
    {
        if list[i].same_as(sig) {
            assert(signature_views(list@)[i as int] == sig@);
            return true;
        }
        i = i + 1;
    }
    assert forall|j: int| 0 <= j < signature_views(list@).len() implies #[trigger] signature_views(
        list@,
    )[j] != sig@ by {
        assert(signature_views(list@)[j] == list@[j]@);
    }
    false
}

/// One retry round over the given entries: the batches to send, and the
/// entries that stay.
fn retry_round(entries: &Vec<PendingTx>) -> (res: (Vec<Vec<Vec<u8>>>, Vec<PendingTx>))
    ensures
        res.0.deep_view() == retry_batches(wires(entry_views(entries@))),
        entry_views(res.1@) == survivors(entry_views(entries@)),
{
    let ghost q = entry_views(entries@);
    let n = entries.len();
    let mut tx_batch: Vec<Vec<Vec<u8>>> = Vec::new();
    let mut kept: Vec<PendingTx> = Vec::new();
    assert(tx_batch.deep_view() =~= retry_batches(wires(q.take(0))));
    proof {
        lemma_survivors_step(q.take(0));
    }
    assert(entry_views(kept@) =~= survivors(q.take(0)));
    let mut index: usize = 0;
    while index < n
        invariant
            n == entries.len(),
            q == entry_views(entries@),
            0 <= index <= n,
            tx_batch.deep_view() == retry_batches(wires(q.take(index as int))),
            entry_views(kept@) == survivors(q.take(index as int)),
        decreases n - index,
    {
        let ghost before = q.take(index as int);
        let ghost after = q.take(index as int + 1);
        let entry = &entries[index];
        let wire = entry.wire.clone();
        assert(wire@ =~= entry.wire@);
        assert(wire.deep_view() =~= wire@);
        assert(entry@ == q[index as int]);
        assert(wires(after) =~= wires(before).push(wire@));
        assert(after.drop_last() =~= before);
        proof {
            lemma_batches_push(wires(before), wire@);
            lemma_survivors_step(after);
        }
        let ghost shown = tx_batch.deep_view();
        if index % RETRY_BATCH_SIZE == 0 {
            let mut fresh: Vec<Vec<u8>> = Vec::new();
            fresh.push(wire);
            assert(fresh.deep_view() =~= seq![wire@]);
            tx_batch.push(fresh);
            assert(tx_batch.deep_view() =~= shown.push(seq![wire@]));
        } else {
            assert(wires(before).len() == index);
            assert(shown.len() > 0);
            let mut last = tx_batch.pop().unwrap();
            assert(last.deep_view() == shown.last());
            last.push(wire);
            assert(last.deep_view() =~= shown.last().push(wire@));
            tx_batch.push(last);
            assert(tx_batch.deep_view() =~= shown.update(shown.len() - 1, shown.last().push(wire@)));
        }
        match entry.retries.checked_sub(1) {
            Some(retries_left) => {
                let kept_wire = entry.wire.clone();
                assert(kept_wire@ =~= entry.wire@);
                kept.push(PendingTx { signature: entry.signature, wire: kept_wire, retries: retries_left });
                assert(entry_views(kept@) =~= survivors(before).push(retried(q[index as int])));
            },
            None => {},
        }
        index = index + 1;
    }
    assert(q.take(n as int) =~= q);
    (tx_batch, kept)
}

/// Retransmits the queued transactions and keeps track of which are still
/// waiting to be confirmed, each for at most as many more rounds as it has
/// retries left.
pub struct LightWorker {
    enqueued_txs: Vec<PendingTx>,
}

impl View for LightWorker {
    type V = Seq<PendingView>;

    closed spec fn view(&self) -> Seq<PendingView> {
        entry_views(self.enqueued_txs@)
    }
}

impl LightWorker {
    /// The queue holds no signature twice.
    pub open spec fn wf(&self) -> bool {
        distinct_signatures(self@)
    }

    /// An empty queue.
    pub fn new() -> (res: LightWorker)
        ensures
            res.wf(),
            res@ == Seq::<PendingView>::empty(),
    {
        let res = LightWorker { enqueued_txs: Vec::new() };
        assert(res@ =~= Seq::<PendingView>::empty());
        res
    }

    /// Whether no transaction is waiting.
    pub fn has_no_work(&self) -> (res: bool)
        ensures
            res <==> self@.len() == 0,
    {
        self.enqueued_txs.len() == 0
    }

    /// How many transactions are waiting.
    pub fn len(&self) -> (res: usize)
        ensures
            res == self@.len(),
    {
        self.enqueued_txs.len()
    }

    /// Queues a transaction for retries, unless it is already confirmed or a
    /// transaction with its signature is already waiting.
    pub fn enqnueue_tx(
        &mut self,
        sig: TxSignature,
        raw_tx: Vec<u8>,
        max_retries: u16,
        already_confirmed: bool,
    )
        requires
            old(self).wf(),
        ensures
            final(self).wf(),
            already_confirmed ==> final(self)@ == old(self)@,
            !already_confirmed ==> final(self)@ == enqueued(
                old(self)@,
                PendingView { signature: sig@, wire: raw_tx@, retries: max_retries },
            ),
    {
        if already_confirmed {
            return;
        }
        let ghost q = self@;
        let ghost p = PendingView { signature: sig@, wire: raw_tx@, retries: max_retries };
        let entry = PendingTx { signature: sig, wire: raw_tx, retries: max_retries };
        let n = self.enqueued_txs.len();
        let mut i: usize = 0;
        while i < n
            invariant
                n == self.enqueued_txs.len(),
                q == self@,
                q == old(self)@,
                distinct_signatures(q),
                p == (PendingView { signature: sig@, wire: raw_tx@, retries: max_retries }),
                entry@ == p,
                !already_confirmed,
                0 <= i <= n,
                forall|j: int| 0 <= j < i ==> #[trigger] q[j].signature != sig@,
            decreases n - i,
        {
            if self.enqueued_txs[i].signature.same_as(&sig) {
                assert(q[i as int].signature == sig@);
                assert(has_signature(q, sig@));
                return;
            }
            i = i + 1;
        }
        assert(!has_signature(q, sig@));
        self.enqueued_txs.push(entry);
        assert(self@ =~= q.push(p));
    }

    /// One retry round, told which of the queued signatures are confirmed:
    /// confirmed transactions leave the queue and are not sent; the others, in
    /// queue order, are cut into batches of `RETRY_BATCH_SIZE` to be sent, and
    /// of them an entry with no retries left is sent this once more and then
    /// dropped, the rest stay with one retry fewer.
    pub fn retry_txs(&mut self, confirmed: &Vec<TxSignature>) -> (batches: Vec<Vec<Vec<u8>>>)
        requires
            old(self).wf(),
        ensures
            final(self).wf(),
            final(self)@ == round(old(self)@, signature_views(confirmed@)),
            batches.deep_view() == retry_batches(
                wires(unconfirmed(old(self)@, signature_views(confirmed@))),
            ),
            batches.deep_view().flatten().len() == unconfirmed(
                old(self)@,
                signature_views(confirmed@),
            ).len(),
            forall|k: int|
                0 <= k < unconfirmed(old(self)@, signature_views(confirmed@)).len()
                    ==> #[trigger] batches.deep_view().flatten()[k] == unconfirmed(
                    old(self)@,
                    signature_views(confirmed@),
                )[k].wire,
            forall|k: int, j: int|
                0 <= k < unconfirmed(old(self)@, signature_views(confirmed@)).len() && 0 <= j
                    < confirmed.len() ==> #[trigger] unconfirmed(
                    old(self)@,
                    signature_views(confirmed@),
                )[k].signature != #[trigger] confirmed@[j]@,
            forall|j: int|
                0 <= j < confirmed.len() ==> #[trigger] entry_for(final(self)@, confirmed@[j]@)
                    is None,
    {
        let ghost q = self@;
        let ghost c = signature_views(confirmed@);
        proof {
            lemma_round_sends_every_unconfirmed(q, c);
            assert forall|j: int| 0 <= j < confirmed.len() implies #[trigger] entry_for(
                round(q, c),
                confirmed@[j]@,
            ) is None by {
                lemma_listed_confirmation_drops(q, confirmed@, j);
            }
            assert forall|k: int, j: int|
                0 <= k < unconfirmed(q, c).len() && 0 <= j < confirmed.len() implies #[trigger] unconfirmed(
                q,
                c,
            )[k].signature != #[trigger] confirmed@[j]@ by {
                lemma_listed_confirmation_drops(q, confirmed@, j);
            }
        }
        if self.has_no_work() {
            proof {
                lemma_unconfirmed_step(q, c);
                lemma_survivors_step(unconfirmed(q, c));
            }
            let none: Vec<Vec<Vec<u8>>> = Vec::new();
            assert(none.deep_view() =~= retry_batches(wires(unconfirmed(q, c))));
            return none;
        }
        let pending = self.unconfirmed_entries(confirmed);
        proof {
            lemma_unconfirmed_entry(q, c, Seq::empty());
            lemma_survivors_distinct(unconfirmed(q, c));
        }
        let (tx_batch, kept) = retry_round(&pending);
        self.enqueued_txs = kept;
        tx_batch
    }

    /// The queued transactions whose signatures are not among `confirmed`, in
    /// queue order.
    fn unconfirmed_entries(&self, confirmed: &Vec<TxSignature>) -> (res: Vec<PendingTx>)
        ensures
            entry_views(res@) == unconfirmed(self@, signature_views(confirmed@)),
    {
        let ghost q = self@;
        let ghost c = signature_views(confirmed@);
        let n = self.enqueued_txs.len();
        let mut res: Vec<PendingTx> = Vec::new();
        proof {
            lemma_unconfirmed_step(q.take(0), c);
        }
        assert(entry_views(res@) =~= unconfirmed(q.take(0), c));
        let mut i: usize = 0;
        while i < n
            invariant
                n == self.enqueued_txs.len(),
                q == self@,
                c == signature_views(confirmed@),
                0 <= i <= n,
                entry_views(res@) == unconfirmed(q.take(i as int), c),
            decreases n - i,
        {
            let entry = &self.enqueued_txs[i];
            assert(entry@ == q[i as int]);
            assert(q.take(i as int + 1).drop_last() =~= q.take(i as int));
            proof {
                lemma_unconfirmed_step(q.take(i as int + 1), c);
            }
            if !is_listed(&entry.signature, confirmed) {
                let wire = entry.wire.clone();
                assert(wire@ =~= entry.wire@);
                res.push(PendingTx { signature: entry.signature, wire, retries: entry.retries });
                assert(entry_views(res@) =~= unconfirmed(q.take(i as int), c).push(q[i as int]));
            }
            i = i + 1;
        }
        assert(q.take(n as int) =~= q);
        res
    }

    /// The retries left for the transaction queued under `sig`, if it is queued.
    pub fn retries_of(&self, sig: &TxSignature) -> (res: Option<u16>)
        requires
            self.wf(),
        ensures
            res == (match entry_for(self@, sig@) {
                Some(p) => Some(p.retries),
                None => None,
            }),
    {
        let ghost q = self@;
        let n = self.enqueued_txs.len();
        let mut i: usize = 0;
        while i < n
            invariant
                n == self.enqueued_txs.len(),
                q == self@,
                distinct_signatures(q),
                0 <= i <= n,
                forall|j: int| 0 <= j < i ==> #[trigger] q[j].signature != sig@,
            decreases n - i,
        {
            if self.enqueued_txs[i].signature.same_as(sig) {
                assert(q[i as int].signature == sig@);
                assert(has_signature(q, sig@));
                let ghost k = position_of(q, sig@);
                assert(k == i) by {
                    if k != i as int {
                        assert(q[k].signature == q[i as int].signature);
                    }
                }
                return Some(self.enqueued_txs[i].retries);
            }
            i = i + 1;
        }
        assert(!has_signature(q, sig@));
        None
    }

    /// The signatures of the queued transactions, in queue order.
    pub fn queued_signatures(&self) -> (res: Vec<TxSignature>)
        ensures
            res.len() == self@.len(),
            forall|j: int| 0 <= j < self@.len() ==> #[trigger] res@[j]@ == self@[j].signature,
            signature_views(res@) == self@.map_values(|p: PendingView| p.signature),
    {
        let n = self.enqueued_txs.len();
        let mut res: Vec<TxSignature> = Vec::new();
        let mut i: usize = 0;
        while i < n
            invariant
                n == self.enqueued_txs.len(),
                self@.len() == n,
                0 <= i <= n,
                res@.len() == i,
                forall|j: int| 0 <= j < i ==> #[trigger] res@[j]@ == self@[j].signature,
            decreases n - i,
        {
            res.push(self.enqueued_txs[i].signature);
            assert(self@[i as int] == self.enqueued_txs@[i as int]@);
            i = i + 1;
        }
        assert(signature_views(res@) =~= self@.map_values(|p: PendingView| p.signature));
        res
    }
}

} // verus!
