//! The schedule: additions to buckets wait until a batch is full.
use vstd::prelude::*;
use vstd::arithmetic::power2::*;

use crate::affine;
use crate::affine::{Affine, BucketAffine};
use crate::algebra;
use crate::algebra::AbelianGroup;
use crate::batch;
use crate::batch::{batch_add, SchedulePoint};
use crate::buckets;
use crate::curve::CurveAffine;

verus! {

/// How many additions make a full batch.
pub const BATCH_SIZE: usize = 64;

/// What a schedule amounts to: the sum in every bucket that has one, with the waiting
/// additions counted in, and the buckets for which an addition waits, the oldest first.
#[verifier::ext_equal]
pub struct Plan<C> {
    pub sums: Seq<Option<C>>,
    pub waiting: Seq<int>,
}

/// A plan for a number of empty buckets.
pub open spec fn plan_empty<C: CurveAffine>(buckets: nat) -> Plan<C> {
    Plan { sums: Seq::new(buckets, |b: int| None), waiting: Seq::empty() }
}

/// A plan after its batch has been carried out.
pub open spec fn plan_execute<C: CurveAffine>(plan: Plan<C>) -> Plan<C> {
    Plan { sums: plan.sums, waiting: Seq::empty() }
}

/// A plan with `p` added to a bucket. The first point of a bucket does not wait, and a
/// full batch is carried out.
pub open spec fn plan_add<C: CurveAffine>(plan: Plan<C>, b: int, p: C) -> Plan<C> {
    match plan.sums[b] {
        None => Plan { sums: plan.sums.update(b, Some(p)), waiting: plan.waiting },
        Some(sum) => Plan {
            sums: plan.sums.update(b, Some(sum.plus(p))),
            waiting: if plan.waiting.len() + 1 == BATCH_SIZE {
                Seq::empty()
            } else {
                plan.waiting.push(b)
            },
        },
    }
}

/// The sum in a bucket, which is zero if nothing is in it.
pub open spec fn sum_or_zero<C: CurveAffine>(sum: Option<C>) -> C {
    match sum {
        None => C::zero(),
        Some(p) => p,
    }
}

/// Buckets in affine form and the additions to them that wait.
pub struct Schedule<C: CurveAffine> {
    pub buckets: Vec<BucketAffine<C>>,
    pub set: [SchedulePoint; BATCH_SIZE],
    pub ptr: usize,
}

/// The last of the first `n` additions that goes to a bucket, or -1.
pub open spec fn waiting_at(set: Seq<SchedulePoint>, n: nat, b: int) -> int
    decreases n,
{
    if n == 0 {
        -1
    } else if set[n - 1].buck_idx == b {
        n - 1
    } else {
        waiting_at(set, (n - 1) as nat, b)
    }
}

/// `waiting_at` finds what there is to be found.
pub proof fn lemma_waiting_at(set: Seq<SchedulePoint>, n: nat, b: int)
    ensures
        -1 <= waiting_at(set, n, b) < n,
        waiting_at(set, n, b) >= 0 ==> set[waiting_at(set, n, b)].buck_idx == b,
        waiting_at(set, n, b) >= 0 <==> batch::targets(set, n, b),
    decreases n,
{
    if n > 0 {
        lemma_waiting_at(set, (n - 1) as nat, b);
        if set[n - 1].buck_idx == b {
            assert(batch::targets(set, n, b));
        } else if batch::targets(set, n, b) {
            let k = choose|k: int| 0 <= k < n && (#[trigger] set[k]).buck_idx == b;
            assert(set[k].buck_idx == b && k < n - 1);
        } else if batch::targets(set, (n - 1) as nat, b) {
            let k = choose|k: int| 0 <= k < n - 1 && (#[trigger] set[k]).buck_idx == b;
            assert(set[k].buck_idx == b && k < n);
        }
    }
}

/// The places of a schedule in which no addition waits.
pub open spec fn free_places() -> Seq<SchedulePoint> {
    Seq::new(BATCH_SIZE as nat, |k: int| SchedulePoint::nothing())
}

/// There are 64 places, and a free one names point 0 and bucket 0.
pub proof fn law_free_places(k: int)
    ensures
        free_places().len() == 64,
        0 <= k < 64 ==> free_places()[k] == (SchedulePoint {
            base_idx: 0,
            buck_idx: 0,
            sign: false,
        }),
{
}

/// The sum of those of the first `n` additions that go to a bucket.
pub open spec fn waiting_sum<C: CurveAffine>(
    set: Seq<SchedulePoint>,
    bases: Seq<Affine<C>>,
    n: nat,
    b: int,
) -> C
    decreases n,
{
    if n == 0 {
        C::zero()
    } else {
        let last = set[n - 1];
        waiting_sum(set, bases, (n - 1) as nat, b).plus(
            if last.buck_idx == b {
                affine::signed(bases[last.base_idx as int].point(), last.sign)
            } else {
                C::zero()
            },
        )
    }
}

impl<C: CurveAffine> Schedule<C> {
    /// The waiting additions are to occupied buckets, each to another one, and the other places
    /// are free.
    pub open spec fn tidy(self, bases: nat) -> bool {
        &&& self.ptr <= BATCH_SIZE
        &&& forall|k: int|
            self.ptr <= k < BATCH_SIZE ==> #[trigger] self.set@[k] == SchedulePoint::nothing()
        &&& forall|k: int|
            0 <= k < self.ptr ==> batch::placed(self.buckets@, #[trigger] self.set@[k], bases)
        &&& forall|k: int, l: int|
            0 <= k < l < self.ptr ==> (#[trigger] self.set@[k]).buck_idx != (
            #[trigger] self.set@[l]).buck_idx
    }

    /// Tidy, and buckets and waiting points are on the curve.
    pub open spec fn sound(self, bases: Seq<Affine<C>>) -> bool {
        &&& self.tidy(bases.len())
        &&& forall|b: int|
            0 <= b < self.buckets@.len() ==> (#[trigger] self.buckets@[b]).valid()
        &&& forall|k: int|
            0 <= k < self.ptr ==> bases[(
            #[trigger] self.set@[k]).base_idx as int].on_curve()
    }

    /// Sound, and with room for an addition.
    pub open spec fn wf(self, bases: Seq<Affine<C>>) -> bool {
        &&& self.sound(bases)
        &&& self.ptr < BATCH_SIZE
    }

    /// The waiting additions can be made.
    pub open spec fn ready(self, bases: Seq<Affine<C>>) -> bool {
        forall|k: int|
            0 <= k < self.ptr && k < BATCH_SIZE ==> batch::addable(
                self.buckets@,
                #[trigger] self.set@[k],
                bases,
            )
    }

    /// The sum of a bucket, with a waiting addition counted in.
    pub open spec fn sum(self, bases: Seq<Affine<C>>, b: int) -> Option<C> {
        let k = waiting_at(self.set@, self.ptr as nat, b);
        match self.buckets@[b] {
            BucketAffine::Empty => None,
            BucketAffine::Point(a) => if k < 0 {
                Some(a.point())
            } else {
                Some(
                    a.point().plus(
                        affine::signed(
                            bases[self.set@[k].base_idx as int].point(),
                            self.set@[k].sign,
                        ),
                    ),
                )
            },
        }
    }

    /// What the schedule amounts to.
    pub open spec fn plan(self, bases: Seq<Affine<C>>) -> Plan<C> {
        Plan {
            sums: Seq::new(self.buckets@.len(), |b: int| self.sum(bases, b)),
            waiting: Seq::new(self.ptr as nat, |k: int| self.set@[k].buck_idx as int),
        }
    }

    /// What a bucket holds and all that waits for it.
    pub open spec fn total(self, bases: Seq<Affine<C>>, b: int) -> C {
        self.buckets@[b].point().plus(waiting_sum(self.set@, bases, self.ptr as nat, b))
    }

    /// An empty schedule with a bucket for every digit of windows of `c` bits.
    pub fn new(c: usize) -> (r: Self)
        requires
            1 <= c <= usize::BITS,
        ensures
            r.ptr == 0,
            r.set@ == free_places(),
            r.buckets@.len() == pow2((c - 1) as nat),
            forall|b: int| 0 <= b < r.buckets@.len() ==> #[trigger] r.buckets@[b] is Empty,
            forall|bases: Seq<Affine<C>>| #[trigger] r.wf(bases),
            forall|bases: Seq<Affine<C>>| #[trigger]
                r.plan(bases) == plan_empty::<C>(pow2((c - 1) as nat)),
    {
        proof {
            vstd::bits::lemma_usize_pow2_no_overflow((c - 1) as nat);
            vstd::bits::lemma_usize_shl_is_mul(1, (c - 1) as usize);
        }
        let count: usize = 1usize << (c - 1);
        let mut buckets: Vec<BucketAffine<C>> = Vec::new();
        let mut b: usize = 0;
        while b < count
            invariant
                b <= count,
                buckets.len() == b,
                forall|j: int| 0 <= j < b ==> #[trigger] buckets@[j] is Empty,
            decreases count - b,
        {
            buckets.push(BucketAffine::Empty);
            b = b + 1;
        }
        let set = [SchedulePoint::default(); BATCH_SIZE];
        let r = Schedule { buckets, set, ptr: 0 };
        assert(r.set@ =~= free_places());
        assert forall|bases: Seq<Affine<C>>| #[trigger]
            r.plan(bases) == plan_empty::<C>(pow2((c - 1) as nat)) by {
            assert(r.plan(bases) =~= plan_empty::<C>(pow2((c - 1) as nat)));
        }
        r
    }

    /// Whether a place of the schedule names a bucket. The free places name bucket 0.
    pub fn contains(&self, buck_idx: usize) -> (r: bool)
        ensures
            r <==> batch::targets(self.set@, BATCH_SIZE as nat, buck_idx as int),
            r <==> exists|k: int|
                0 <= k < BATCH_SIZE && (#[trigger] self.set@[k]).buck_idx == buck_idx,
            forall|bases: Seq<Affine<C>>| #[trigger]
                self.wf(bases) ==> (r <==> buck_idx == 0 || self.plan(bases).waiting.contains(
                    buck_idx as int,
                )),
    {
        let mut k: usize = 0;
        let mut found: bool = false;
        while k < BATCH_SIZE
            invariant
                k <= BATCH_SIZE,
                found <==> batch::targets(self.set@, k as nat, buck_idx as int),
            decreases BATCH_SIZE - k,
        {
            proof {
                lemma_waiting_at(self.set@, k as nat, buck_idx as int);
                lemma_waiting_at(self.set@, (k + 1) as nat, buck_idx as int);
            }
            if self.set[k].buck_idx == buck_idx {
                found = true;
            }
            k = k + 1;
        }
        proof {
            assert forall|bases: Seq<Affine<C>>| #[trigger] self.wf(bases) implies (found
                <==> buck_idx == 0 || self.plan(bases).waiting.contains(buck_idx as int)) by {
                let waiting = self.plan(bases).waiting;
                if found {
                    let j = choose|j: int|
                        0 <= j < BATCH_SIZE && (#[trigger] self.set@[j]).buck_idx == buck_idx;
                    if j < self.ptr {
                        assert(waiting[j] == buck_idx);
                    }
                }
                if buck_idx == 0 {
                    assert(self.set@[BATCH_SIZE - 1] == SchedulePoint::nothing());
                }
                if waiting.contains(buck_idx as int) {
                    let j = choose|j: int| 0 <= j < waiting.len() && waiting[j] == buck_idx;
                    assert(self.set@[j].buck_idx == buck_idx);
                }
            }
        }
        found
    }

    /// Makes the waiting additions.
    pub fn execute(&mut self, bases: &[Affine<C>])
        requires
            old(self).ready(bases@),
        ensures
            final(self).ptr == 0,
            old(self).ptr == 0 ==> final(self).buckets@ == old(self).buckets@ && final(self).set@
                == old(self).set@,
            old(self).ptr != 0 ==> final(self).set@ == free_places() && batch::batch_made(
                old(self).buckets@,
                final(self).buckets@,
                old(self).set@,
                buckets::min_len(old(self).ptr as nat, BATCH_SIZE as nat),
                bases@,
            ),
            old(self).sound(bases@) ==> final(self).wf(bases@),
            old(self).sound(bases@) ==> final(self).plan(bases@) == plan_execute(
                old(self).plan(bases@),
            ),
    {
        let ghost before = *self;
        if self.ptr != 0 {
            let ptr: usize = self.ptr;
            batch_add(ptr, &mut self.buckets, self.set.as_slice(), bases);
            self.ptr = 0;
            self.set = [SchedulePoint::default(); BATCH_SIZE];
            assert(self.set@ =~= free_places());
        }
        proof {
            if before.sound(bases@) {
                lemma_executed(before, *self, bases@);
            }
        }
    }

    /// Adds a point, or subtracts it, to a bucket: at once if the bucket is empty, else as an
    /// addition that waits. Makes the waiting additions if that fills the batch.
    ///
    /// What the schedule amounts to changes in that bucket alone, provided that no addition
    /// waits for it yet.
    pub fn add(&mut self, bases: &[Affine<C>], base_idx: usize, buck_idx: usize, sign: bool)
        requires
            base_idx < bases@.len(),
            buck_idx < old(self).buckets@.len(),
            old(self).ptr < BATCH_SIZE,
            old(self).buckets@[buck_idx as int] is Point && old(self).ptr + 1 == BATCH_SIZE ==> {
                &&& old(self).ready(bases@)
                &&& old(self).buckets@[buck_idx as int]->Point_0.x != bases@[base_idx as int].x
            },
        ensures
            final(self).ptr < BATCH_SIZE,
            final(self).buckets@.len() == old(self).buckets@.len(),
            old(self).buckets@[buck_idx as int] is Empty ==> {
                &&& final(self).buckets@ == old(self).buckets@.update(
                    buck_idx as int,
                    BucketAffine::Point(affine::signed_coordinates(bases@[base_idx as int], sign)),
                )
                &&& final(self).set@ == old(self).set@
                &&& final(self).ptr == old(self).ptr
            },
            old(self).buckets@[buck_idx as int] is Point && old(self).ptr + 1 < BATCH_SIZE ==> {
                &&& final(self).buckets@ == old(self).buckets@
                &&& final(self).set@ == old(self).set@.update(
                    old(self).ptr as int,
                    (SchedulePoint { base_idx, buck_idx, sign }),
                )
                &&& final(self).ptr == old(self).ptr + 1
            },
            old(self).buckets@[buck_idx as int] is Point && old(self).ptr + 1 == BATCH_SIZE ==> {
                &&& batch::batch_made(
                    old(self).buckets@,
                    final(self).buckets@,
                    old(self).set@.update(
                        old(self).ptr as int,
                        (SchedulePoint { base_idx, buck_idx, sign }),
                    ),
                    BATCH_SIZE as nat,
                    bases@,
                )
                &&& final(self).set@ == free_places()
                &&& final(self).ptr == 0
            },
            old(self).tidy(bases@.len()) && !batch::targets(
                old(self).set@,
                old(self).ptr as nat,
                buck_idx as int,
            ) ==> final(self).tidy(bases@.len()),
            old(self).wf(bases@) && bases@[base_idx as int].on_curve() && !batch::targets(
                old(self).set@,
                old(self).ptr as nat,
                buck_idx as int,
            ) ==> {
                &&& final(self).wf(bases@)
                &&& final(self).plan(bases@) == plan_add(
                    old(self).plan(bases@),
                    buck_idx as int,
                    affine::signed(bases@[base_idx as int].point(), sign),
                )
                &&& forall|b: int|
                    0 <= b < final(self).buckets@.len() ==> #[trigger] final(self).total(bases@, b)
                        == (if b == buck_idx {
                        old(self).total(bases@, b).plus(
                            affine::signed(bases@[base_idx as int].point(), sign),
                        )
                    } else {
                        old(self).total(bases@, b)
                    })
            },
    {
        let ghost before = *self;
        let ghost p = affine::signed(bases@[base_idx as int].point(), sign);
        let ghost free = !batch::targets(before.set@, before.ptr as nat, buck_idx as int);
        let ghost exact = before.wf(bases@) && bases@[base_idx as int].on_curve() && free;
        let mut bucket = self.buckets[buck_idx];
        if bucket.assign(&bases[base_idx], sign) {
            self.buckets.set(buck_idx, bucket);
            proof {
                if before.tidy(bases@.len()) {
                    lemma_assigned_tidy(before, *self, bases@.len(), buck_idx as int);
                }
                if exact {
                    lemma_assigned(before, *self, bases@, buck_idx as int, p);
                }
            }
        } else {
            let ptr: usize = self.ptr;
            self.set[ptr] = SchedulePoint::new(base_idx, buck_idx, sign);
            self.ptr = ptr + 1;
            proof {
                assert(self.set@ =~= before.set@.update(
                    ptr as int,
                    (SchedulePoint { base_idx, buck_idx, sign }),
                ));
                if before.tidy(bases@.len()) && free {
                    lemma_scheduled_tidy(before, *self, bases@.len(), base_idx, buck_idx, sign);
                }
                if exact {
                    lemma_scheduled(before, *self, bases@, base_idx, buck_idx, sign);
                }
            }
        }
        if self.ptr == BATCH_SIZE {
            self.execute(bases);
        }
        proof {
            if exact {
                assert(self.plan(bases@) =~= plan_add(before.plan(bases@), buck_idx as int, p));
                lemma_totals(before, *self, bases@, buck_idx as int, p);
            }
        }
    }
}

/// A batch that has been carried out keeps what the schedule amounts to.
proof fn lemma_executed<C: CurveAffine>(
    before: Schedule<C>,
    after: Schedule<C>,
    bases: Seq<Affine<C>>,
)
    requires
        before.sound(bases),
        after.ptr == 0,
        before.ptr == 0 ==> after.buckets@ == before.buckets@ && after.set@ == before.set@,
        before.ptr != 0 ==> after.set@ == free_places() && batch::batch_made(
            before.buckets@,
            after.buckets@,
            before.set@,
            before.ptr as nat,
            bases,
        ),
    ensures
        after.wf(bases),
        after.plan(bases) == plan_execute(before.plan(bases)),
{
    let n = before.ptr as nat;
    assert forall|b: int| 0 <= b < before.buckets@.len() implies #[trigger] after.sum(bases, b)
        == before.sum(bases, b) && after.buckets@[b].valid() by {
        lemma_waiting_at(before.set@, n, b);
        let k = waiting_at(before.set@, n, b);
        assert(before.buckets@[b].valid());
        if k >= 0 {
            let point = before.set@[k];
            assert(batch::placed(before.buckets@, point, bases.len()));
            assert(bases[point.base_idx as int].on_curve());
            assert(batch::alone(before.set@, n, k));
            assert(batch::genuine(before.buckets@, point, bases));
            assert(batch::added(before.buckets@, after.buckets@, point, bases));
        }
    }
    assert(after.buckets@.len() == before.buckets@.len());
    assert forall|b: int| 0 <= b < after.buckets@.len() implies (
    #[trigger] after.buckets@[b]).valid() by {
        assert(after.sum(bases, b) == before.sum(bases, b));
    }
    assert(after.plan(bases) =~= plan_execute(before.plan(bases)));
}

/// The first point of a bucket has been put into it.
proof fn lemma_assigned_tidy<C: CurveAffine>(
    before: Schedule<C>,
    after: Schedule<C>,
    bases: nat,
    b: int,
)
    requires
        before.tidy(bases),
        0 <= b < before.buckets@.len(),
        after.set@ == before.set@,
        after.ptr == before.ptr,
        after.buckets@ == before.buckets@.update(b, after.buckets@[b]),
        after.buckets@[b] is Point,
    ensures
        after.tidy(bases),
{
    assert forall|k: int| 0 <= k < after.ptr implies batch::placed(
        after.buckets@,
        #[trigger] after.set@[k],
        bases,
    ) by {
        assert(batch::placed(before.buckets@, before.set@[k], bases));
    }
}

/// The first point of a bucket has been put into it, on the curve.
proof fn lemma_assigned<C: CurveAffine>(
    before: Schedule<C>,
    after: Schedule<C>,
    bases: Seq<Affine<C>>,
    b: int,
    p: C,
)
    requires
        before.wf(bases),
        0 <= b < before.buckets@.len(),
        before.buckets@[b] is Empty,
        after.set@ == before.set@,
        after.ptr == before.ptr,
        after.buckets@ == before.buckets@.update(b, after.buckets@[b]),
        after.buckets@[b] is Point,
        after.buckets@[b].valid(),
        after.buckets@[b].point() == p,
    ensures
        after.wf(bases),
        after.plan(bases) == plan_add(before.plan(bases), b, p),
{
    lemma_assigned_tidy(before, after, bases.len(), b);
    assert forall|k: int| 0 <= k < after.ptr implies bases[(
    #[trigger] after.set@[k]).base_idx as int].on_curve() by {
        assert(bases[before.set@[k].base_idx as int].on_curve());
    }
    lemma_waiting_at(before.set@, before.ptr as nat, b);
    let k = waiting_at(before.set@, before.ptr as nat, b);
    if k >= 0 {
        assert(batch::placed(before.buckets@, before.set@[k], bases.len()));
    }
    assert(after.plan(bases) =~= plan_add(before.plan(bases), b, p));
}

/// An addition has been put into the first free place.
proof fn lemma_scheduled_tidy<C: CurveAffine>(
    before: Schedule<C>,
    after: Schedule<C>,
    bases: nat,
    base_idx: usize,
    buck_idx: usize,
    sign: bool,
)
    requires
        before.tidy(bases),
        before.ptr < BATCH_SIZE,
        base_idx < bases,
        buck_idx < before.buckets@.len(),
        before.buckets@[buck_idx as int] is Point,
        !batch::targets(before.set@, before.ptr as nat, buck_idx as int),
        after.buckets@ == before.buckets@,
        after.ptr == before.ptr + 1,
        after.set@ == before.set@.update(
            before.ptr as int,
            (SchedulePoint { base_idx, buck_idx, sign }),
        ),
    ensures
        after.tidy(bases),
{
    let n = before.ptr as nat;
    assert forall|k: int| 0 <= k < after.ptr implies batch::placed(
        after.buckets@,
        #[trigger] after.set@[k],
        bases,
    ) by {
        if k < n {
            assert(batch::placed(before.buckets@, before.set@[k], bases));
        }
    }
    assert forall|k: int, l: int| 0 <= k < l < after.ptr implies (#[trigger] after.set@[k]).buck_idx
        != (#[trigger] after.set@[l]).buck_idx by {
        assert(after.set@[k] == before.set@[k]);
        if l < n {
            assert(before.set@[k].buck_idx != before.set@[l].buck_idx);
        }
    }
}

/// An addition has been put into the first free place, on the curve.
proof fn lemma_scheduled<C: CurveAffine>(
    before: Schedule<C>,
    after: Schedule<C>,
    bases: Seq<Affine<C>>,
    base_idx: usize,
    buck_idx: usize,
    sign: bool,
)
    requires
        before.wf(bases),
        base_idx < bases.len(),
        buck_idx < before.buckets@.len(),
        before.buckets@[buck_idx as int] is Point,
        bases[base_idx as int].on_curve(),
        !batch::targets(before.set@, before.ptr as nat, buck_idx as int),
        after.buckets@ == before.buckets@,
        after.ptr == before.ptr + 1,
        after.set@ == before.set@.update(
            before.ptr as int,
            (SchedulePoint { base_idx, buck_idx, sign }),
        ),
    ensures
        after.sound(bases),
        after.plan(bases).waiting == before.plan(bases).waiting.push(buck_idx as int),
        after.plan(bases).sums == plan_add(
            before.plan(bases),
            buck_idx as int,
            affine::signed(bases[base_idx as int].point(), sign),
        ).sums,
{
    let n = before.ptr as nat;
    lemma_scheduled_tidy(before, after, bases.len(), base_idx, buck_idx, sign);
    assert forall|k: int| 0 <= k < after.ptr implies bases[(
    #[trigger] after.set@[k]).base_idx as int].on_curve() by {
        if k < n {
            assert(bases[before.set@[k].base_idx as int].on_curve());
        }
    }
    assert forall|b: int| 0 <= b < before.buckets@.len() implies waiting_at(
        after.set@,
        after.ptr as nat,
        b,
    ) == (if b == buck_idx {
        n as int
    } else {
        #[trigger] waiting_at(before.set@, n, b)
    }) by {
        lemma_waiting_prefix(before.set@, after.set@, n, b);
        lemma_waiting_at(before.set@, n, b);
    }
    lemma_waiting_at(before.set@, n, buck_idx as int);
    assert forall|b: int| 0 <= b < before.buckets@.len() implies #[trigger] after.sum(bases, b)
        == plan_add(
        before.plan(bases),
        buck_idx as int,
        affine::signed(bases[base_idx as int].point(), sign),
    ).sums[b] by {
        lemma_waiting_prefix(before.set@, after.set@, n, b);
        lemma_waiting_at(before.set@, n, b);
    }
    assert(after.plan(bases).sums =~= plan_add(
        before.plan(bases),
        buck_idx as int,
        affine::signed(bases[base_idx as int].point(), sign),
    ).sums);
    assert(after.plan(bases).waiting =~= before.plan(bases).waiting.push(buck_idx as int));
}

/// Where every addition waits for another bucket, at most one counts for each.
proof fn lemma_waiting_sum<C: CurveAffine>(
    set: Seq<SchedulePoint>,
    bases: Seq<Affine<C>>,
    n: nat,
    b: int,
)
    requires
        forall|k: int, l: int|
            0 <= k < l < n ==> (#[trigger] set[k]).buck_idx != (#[trigger] set[l]).buck_idx,
    ensures
        ({
            let k = waiting_at(set, n, b);
            waiting_sum(set, bases, n, b) == (if k < 0 {
                C::zero()
            } else {
                affine::signed(bases[set[k].base_idx as int].point(), set[k].sign)
            })
        }),
    decreases n,
{
    if n > 0 {
        let m = (n - 1) as nat;
        lemma_waiting_sum(set, bases, m, b);
        lemma_waiting_at(set, m, b);
        let last = set[m as int];
        C::law_zero(waiting_sum(set, bases, m, b));
        algebra::lemma_zero_left(affine::signed(bases[last.base_idx as int].point(), last.sign));
        if last.buck_idx == b && waiting_at(set, m, b) >= 0 {
            assert(set[waiting_at(set, m, b)].buck_idx != set[m as int].buck_idx);
        }
    }
}

/// What a bucket holds and what waits for it is its sum in the plan.
pub proof fn lemma_total<C: CurveAffine>(sched: Schedule<C>, bases: Seq<Affine<C>>, b: int)
    requires
        sched.tidy(bases.len()),
        0 <= b < sched.buckets@.len(),
    ensures
        sched.total(bases, b) == sum_or_zero(sched.plan(bases).sums[b]),
{
    let n = sched.ptr as nat;
    lemma_waiting_sum(sched.set@, bases, n, b);
    lemma_waiting_at(sched.set@, n, b);
    let k = waiting_at(sched.set@, n, b);
    if k >= 0 {
        assert(batch::placed(sched.buckets@, sched.set@[k], bases.len()));
    }
    C::law_zero(sched.buckets@[b].point());
}

/// An addition to the plan changes the total of its bucket alone.
proof fn lemma_totals<C: CurveAffine>(
    before: Schedule<C>,
    after: Schedule<C>,
    bases: Seq<Affine<C>>,
    b: int,
    p: C,
)
    requires
        before.tidy(bases.len()),
        after.tidy(bases.len()),
        0 <= b < before.buckets@.len(),
        after.buckets@.len() == before.buckets@.len(),
        after.plan(bases) == plan_add(before.plan(bases), b, p),
    ensures
        forall|k: int|
            0 <= k < after.buckets@.len() ==> #[trigger] after.total(bases, k) == (if k == b {
                before.total(bases, k).plus(p)
            } else {
                before.total(bases, k)
            }),
{
    algebra::lemma_zero_left(p);
    assert forall|k: int| 0 <= k < after.buckets@.len() implies #[trigger] after.total(bases, k)
        == (if k == b {
        before.total(bases, k).plus(p)
    } else {
        before.total(bases, k)
    }) by {
        lemma_total(before, bases, k);
        lemma_total(after, bases, k);
    }
}

/// Only the first `n` places matter to `waiting_at`.
proof fn lemma_waiting_prefix(a: Seq<SchedulePoint>, b: Seq<SchedulePoint>, n: nat, bucket: int)
    requires
        forall|k: int| 0 <= k < n ==> a[k] == b[k],
    ensures
        waiting_at(a, n, bucket) == waiting_at(b, n, bucket),
    decreases n,
{
    if n > 0 {
        lemma_waiting_prefix(a, b, (n - 1) as nat, bucket);
    }
}

} // verus!
