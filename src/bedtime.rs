use crate::interval_set::IntervalSet;
use crate::time::{
    at_day, day_of, lemma_day_bounds, split_time, time_at, time_of_day, valid_time,
    weekday_of, weekday_of_day, DAY_SECONDS, TIME_LIMIT,
};
use vstd::prelude::*;

verus! {

/// A set of weekdays, Monday (0) to Sunday (6), one bit each.
#[derive(Clone, Copy, Debug, PartialEq, Eq, Structural)]
pub struct WeekdaySet {
    mask: u8,
}

pub open spec fn bit_set(mask: u8, d: int) -> bool {
    0 <= d < 7 && (mask >> (d as u8)) & 1 == 1
}

impl View for WeekdaySet {
    type V = Set<int>;

    closed spec fn view(&self) -> Set<int> {
        Set::new(|d: int| bit_set(self.mask, d))
    }
}

impl WeekdaySet {
    /// No weekday.
    pub fn new() -> (r: WeekdaySet)
        ensures
            r@ == Set::<int>::empty(),
    {
        let r = WeekdaySet { mask: 0 };
        assert forall|d: int| !r@.contains(d) by {
            if 0 <= d < 7 {
                let dd = d as u8;
                assert((0u8 >> dd) & 1 == 0) by (bit_vector);
            }
        }
        assert(r@ =~= Set::<int>::empty());
        r
    }

    pub fn contains(&self, day: u8) -> (r: bool)
        requires
            day < 7,
        ensures
            r == self@.contains(day as int),
    {
        (self.mask >> day) & 1 == 1
    }

    pub fn is_empty(&self) -> (r: bool)
        ensures
            r == (self@ == Set::<int>::empty()),
    {
        let m = self.mask & 127;
        if m == 0 {
            assert forall|d: int| !self@.contains(d) by {
                if 0 <= d < 7 {
                    let dd = d as u8;
                    let mask = self.mask;
                    assert(mask & 127 == 0 && dd < 7 ==> (mask >> dd) & 1 == 0) by (bit_vector);
                }
            }
            assert(self@ =~= Set::<int>::empty());
            true
        } else {
            let mask = self.mask;
            assert(mask & 127 != 0 ==> exists|dd: u8| dd < 7 && (mask >> dd) & 1 == 1) by {
                if mask & 127 != 0 {
                    assert(((mask >> 0u8) & 1 == 1) || ((mask >> 1u8) & 1 == 1) || ((mask >> 2u8)
                        & 1 == 1) || ((mask >> 3u8) & 1 == 1) || ((mask >> 4u8) & 1 == 1) || ((mask
                        >> 5u8) & 1 == 1) || ((mask >> 6u8) & 1 == 1)) by (bit_vector)
                        requires
                            mask & 127 != 0,
                    ;
                }
            }
            let ghost dd = choose|dd: u8| dd < 7 && (mask >> dd) & 1 == 1;
            assert(self@.contains(dd as int));
            false
        }
    }

    /// Adds `day` if absent, removes it if present.
    pub fn toggle(&mut self, day: u8)
        requires
            day < 7,
        ensures
            final(self)@ == if old(self)@.contains(day as int) {
                old(self)@.remove(day as int)
            } else {
                old(self)@.insert(day as int)
            },
    {
        let ghost old_mask = self.mask;
        let ghost old_view = self@;
        self.mask = self.mask ^ (1u8 << day);
        let new_mask = self.mask;
        assert forall|d: int| #[trigger] self@.contains(d) == (if d == day { !old_view.contains(d) } else { old_view.contains(d) }) by {
            if 0 <= d < 7 {
                let dd = d as u8;
                assert(new_mask == old_mask ^ (1u8 << day) && dd < 7 && day < 7 ==> ((new_mask >> dd)
                    & 1 == 1 <==> (if dd == day {
                    (old_mask >> dd) & 1 != 1
                } else {
                    (old_mask >> dd) & 1 == 1
                }))) by (bit_vector);
            }
        }
        proof {
            if old_view.contains(day as int) {
                assert(self@ =~= old_view.remove(day as int));
            } else {
                assert(self@ =~= old_view.insert(day as int));
            }
        }
    }
}

/// A bedtime of a member: from `first` on, and again on each repeat weekday at the same
/// time of day.
#[derive(Clone, Copy, Debug, PartialEq, Eq, Structural)]
pub struct Bedtime {
    pub user: u64,
    pub first: i64,
    pub repeat: WeekdaySet,
}

/// The bedtime's time of day on day `d`.
pub open spec fn occurrence_on(b: Bedtime, d: int) -> int {
    at_day(d, time_of_day(b.first as int))
}

/// Whether `t` is an occurrence of `b` that matters at `now`: the first one, or a repeat
/// after it on a repeat weekday, from yesterday to a week from today.
pub open spec fn is_relevant(b: Bedtime, now: int, t: int) -> bool {
    t == b.first || exists|k: int|
        -1 <= k <= 7 && t == #[trigger] occurrence_on(b, day_of(now) + k) && t > b.first
            && b.repeat@.contains(weekday_of_day(day_of(now) + k))
}

/// `r` is the earliest relevant occurrence after `now`, or `first` when there is none.
pub open spec fn is_next(b: Bedtime, now: int, r: int) -> bool {
    ||| (r > now && is_relevant(b, now, r) && forall|t: int|
        #[trigger] is_relevant(b, now, t) && t > now ==> r <= t)
    ||| (r == b.first && forall|t: int| #[trigger] is_relevant(b, now, t) ==> t <= now)
}

/// Whether bedtime `b` is being enforced at `now`, for `duration` seconds after each
/// relevant occurrence.
pub open spec fn is_active(b: Bedtime, now: int, duration: int) -> bool {
    exists|t: int| #[trigger] is_relevant(b, now, t) && t <= now < t + duration
}

/// A bedtime that never repeats and ended `duration` ago.
pub open spec fn is_outdated(b: Bedtime, now: int, duration: int) -> bool {
    b.repeat@ == Set::<int>::empty() && b.first + duration < now
}

pub open spec fn strictly_increasing(s: Seq<i64>) -> bool {
    forall|i: int, j: int| 0 <= i < j < s.len() ==> (#[trigger] s[i]) < (#[trigger] s[j])
}

impl Bedtime {
    pub open spec fn valid(&self) -> bool {
        valid_time(self.first as int)
    }

    /// The occurrences of the bedtime that matter at `now`, in increasing order.
    pub fn currently_relevant_bedtimes(&self, now: i64) -> (r: Vec<i64>)
        requires
            self.valid(),
            valid_time(now as int),
        ensures
            strictly_increasing(r@),
            r@.len() > 0,
            r@[0] == self.first,
            forall|i: int| 0 <= i < r@.len() ==> is_relevant(*self, now as int, #[trigger] r@[i] as int),
            forall|t: int| is_relevant(*self, now as int, t) ==> exists|i: int|
                0 <= i < r@.len() && #[trigger] r@[i] == t,
    {
        let (today, _) = split_time(now);
        let (_, tod) = split_time(self.first);
        let mut r: Vec<i64> = Vec::new();
        r.push(self.first);
        let mut k: i64 = -1;
        while k <= 7
            invariant
                -1 <= k <= 8,
                today == day_of(now as int),
                tod == time_of_day(self.first as int),
                -crate::time::SHIFT_DAYS + 16 <= today <= crate::time::SHIFT_DAYS - 16,
                0 <= tod < DAY_SECONDS,
                self.valid(),
                r@.len() > 0,
                r@[0] == self.first,
                strictly_increasing(r@),
                r@.last() == self.first || r@.last() <= at_day(today + k - 1, tod as int),
                forall|i: int| 0 <= i < r@.len() ==> is_relevant(*self, now as int, #[trigger] r@[i] as int),
                forall|kk: int|
                    -1 <= kk < k && #[trigger] occurrence_on(*self, today + kk) > self.first
                        && self.repeat@.contains(weekday_of_day(today + kk)) ==> exists|i: int|
                        0 <= i < r@.len() && #[trigger] r@[i] == occurrence_on(*self, today + kk),
            decreases 8 - k,
        {
            let d = today + k;
            let c = time_at(d, tod);
            if c > self.first && self.repeat.contains(weekday_of(d)) {
                let ghost r0 = r@;
                r.push(c);
                assert(r@[r@.len() - 1] == c);
                assert(is_relevant(*self, now as int, c as int)) by {
                    assert(c == occurrence_on(*self, day_of(now as int) + k));
                }
                assert forall|kk: int|
                    -1 <= kk < k + 1 && #[trigger] occurrence_on(*self, today + kk) > self.first
                        && self.repeat@.contains(weekday_of_day(today + kk)) implies exists|i: int|
                        0 <= i < r@.len() && #[trigger] r@[i] == occurrence_on(*self, today + kk) by {
                    if kk < k {
                        let i = choose|i: int| 0 <= i < r0.len() && #[trigger] r0[i] == occurrence_on(*self, today + kk);
                        assert(r@[i] == r0[i]);
                    } else {
                        assert(r@[r@.len() - 1] == occurrence_on(*self, today + kk));
                    }
                }
            }
            k += 1;
        }
        r
    }

    /// The next occurrence after `now`, or `first` when none is relevant.
    pub fn next(&self, now: i64) -> (r: i64)
        requires
            self.valid(),
            valid_time(now as int),
        ensures
            is_next(*self, now as int, r as int),
            r >= self.first,
    {
        let all = self.currently_relevant_bedtimes(now);
        let mut i: usize = 0;
        while i < all.len()
            invariant
                0 <= i <= all@.len(),
                strictly_increasing(all@),
                all@[0] == self.first,
                all@.len() > 0,
                forall|j: int| 0 <= j < all@.len() ==> is_relevant(*self, now as int, #[trigger] all@[j] as int),
                forall|t: int| is_relevant(*self, now as int, t) ==> exists|j: int|
                    0 <= j < all@.len() && #[trigger] all@[j] == t,
                forall|j: int| 0 <= j < i ==> #[trigger] all@[j] <= now,
            decreases all@.len() - i,
        {
            if all[i] > now {
                proof {
                    assert forall|t: int| #[trigger] is_relevant(*self, now as int, t) && t > now
                        implies all@[i as int] <= t by {
                        let j = choose|j: int| 0 <= j < all@.len() && #[trigger] all@[j] == t;
                        if j < i {
                        } else if j > i {
                        }
                    }
                    if i > 0 {
                        assert(all@[0] < all@[i as int]);
                    }
                }
                return all[i];
            }
            i += 1;
        }
        proof {
            assert forall|t: int| #[trigger] is_relevant(*self, now as int, t) implies t <= now by {
                let j = choose|j: int| 0 <= j < all@.len() && #[trigger] all@[j] == t;
            }
        }
        self.first
    }

    /// Whether the bedtime is being enforced at `now`.
    pub fn is_active_at(&self, now: i64, duration: i64) -> (r: bool)
        requires
            self.valid(),
            valid_time(now as int),
            valid_time(duration as int),
        ensures
            r == is_active(*self, now as int, duration as int),
    {
        let all = self.currently_relevant_bedtimes(now);
        let mut i: usize = 0;
        while i < all.len()
            invariant
                0 <= i <= all@.len(),
                self.valid(),
                valid_time(now as int),
                valid_time(duration as int),
                forall|j: int| 0 <= j < all@.len() ==> is_relevant(*self, now as int, #[trigger] all@[j] as int),
                forall|t: int| is_relevant(*self, now as int, t) ==> exists|j: int|
                    0 <= j < all@.len() && #[trigger] all@[j] == t,
                forall|j: int| 0 <= j < i ==> !(#[trigger] all@[j] <= now < all@[j] + duration),
            decreases all@.len() - i,
        {
            proof {
                lemma_relevant_bounds(*self, now as int, all@[i as int] as int);
            }
            if all[i] <= now && now < all[i] + duration {
                assert(is_relevant(*self, now as int, all@[i as int] as int));
                return true;
            }
            i += 1;
        }
        proof {
            assert forall|t: int| #[trigger] is_relevant(*self, now as int, t) implies !(t <= now < t
                + duration) by {
                let j = choose|j: int| 0 <= j < all@.len() && #[trigger] all@[j] == t;
            }
        }
        false
    }
}

/// Relevant occurrences stay near `now` or at `first`.
pub proof fn lemma_relevant_bounds(b: Bedtime, now: int, t: int)
    requires
        valid_time(b.first as int),
        valid_time(now),
        is_relevant(b, now, t),
    ensures
        -TIME_LIMIT - 2 * DAY_SECONDS <= t <= TIME_LIMIT + 8 * DAY_SECONDS,
{
    if t != b.first {
        let k = choose|k: int|
            -1 <= k <= 7 && t == #[trigger] occurrence_on(b, day_of(now) + k) && t > b.first
                && b.repeat@.contains(weekday_of_day(day_of(now) + k));
        lemma_day_bounds(now);
        lemma_day_bounds(b.first as int);
    }
}

/// Two calls of `next` with the same schedule and the same `now` agree.
pub proof fn lemma_next_deterministic(b: Bedtime, now: int, r1: int, r2: int)
    requires
        is_next(b, now, r1),
        is_next(b, now, r2),
    ensures
        r1 == r2,
{
    if r1 > now && is_relevant(b, now, r1) {
        if r2 > now && is_relevant(b, now, r2) {
            assert(r1 <= r2);
            assert(r2 <= r1);
        }
    }
}

/// A bedtime that never repeats and ended `duration` before `now` is not enforced at
/// `now` or at any later time.
pub proof fn lemma_outdated_never_active(b: Bedtime, now: int, duration: int, later: int)
    requires
        is_outdated(b, now, duration),
        later >= now,
    ensures
        !is_active(b, later, duration),
{
    assert forall|t: int| #[trigger] is_relevant(b, later, t) implies !(t <= later < t + duration) by {
        if t != b.first {
            let k = choose|k: int|
                -1 <= k <= 7 && t == #[trigger] occurrence_on(b, day_of(later) + k) && t > b.first
                    && b.repeat@.contains(weekday_of_day(day_of(later) + k));
            assert(false);
        }
    }
}

/// A bedtime under its id.
#[derive(Clone, Copy, Debug, PartialEq, Eq, Structural)]
pub struct ScheduleEntry {
    pub id: u128,
    pub bedtime: Bedtime,
}

/// Why a bedtime operation was refused. Nothing is changed when one is returned.
#[derive(Clone, Copy, Debug, PartialEq, Eq, Structural)]
pub enum ScheduleError {
    /// No bedtime has the given id.
    NotFound,
    /// The bedtime belongs to someone else.
    Forbidden,
    /// The fresh id drawn for a new bedtime is already taken.
    IdInUse,
}

/// All bedtimes of a guild, each id at most once.
#[derive(Clone, Debug)]
pub struct Schedules {
    pub entries: Vec<ScheduleEntry>,
}

pub open spec fn has_id(s: Seq<ScheduleEntry>, id: u128) -> bool {
    exists|k: int| 0 <= k < s.len() && (#[trigger] s[k]).id == id
}

/// The entries that survive a sweep at `now`.
pub open spec fn retained(s: Seq<ScheduleEntry>, now: int, duration: int) -> Seq<ScheduleEntry>
    decreases s.len(),
{
    if s.len() == 0 {
        s
    } else {
        let rest = retained(s.drop_last(), now, duration);
        if is_outdated(s.last().bedtime, now, duration) {
            rest
        } else {
            rest.push(s.last())
        }
    }
}

/// Whether `t` falls within `duration` after an occurrence of `b` relevant at `now`.
pub open spec fn covers_time(b: Bedtime, now: int, duration: int, t: int) -> bool {
    exists|o: int| #[trigger] is_relevant(b, now, o) && o <= t < o + duration
}

/// Whether `t` falls within an enforcement interval of one of `user`'s bedtimes.
pub open spec fn user_covers(s: Seq<ScheduleEntry>, user: u64, now: int, duration: int, t: int) -> bool {
    exists|k: int|
        0 <= k < s.len() && (#[trigger] s[k]).bedtime.user == user && covers_time(
            s[k].bedtime,
            now,
            duration,
            t,
        )
}

/// Whether one of `user`'s bedtimes is being enforced at `now`.
pub open spec fn user_in_bedtime(s: Seq<ScheduleEntry>, user: u64, now: int, duration: int) -> bool {
    exists|k: int|
        0 <= k < s.len() && (#[trigger] s[k]).bedtime.user == user && is_active(
            s[k].bedtime,
            now,
            duration,
        )
}

pub proof fn lemma_retained(s: Seq<ScheduleEntry>, now: int, duration: int)
    ensures
        forall|k: int|
            0 <= k < retained(s, now, duration).len() ==> exists|j: int|
                0 <= j < s.len() && s[j] == #[trigger] retained(s, now, duration)[k],
        forall|k: int|
            0 <= k < retained(s, now, duration).len() ==> !is_outdated(
                (#[trigger] retained(s, now, duration)[k]).bedtime,
                now,
                duration,
            ),
        forall|j: int|
            0 <= j < s.len() && !is_outdated((#[trigger] s[j]).bedtime, now, duration)
                ==> retained(s, now, duration).contains(s[j]),
    decreases s.len(),
{
    if s.len() > 0 {
        let d = s.drop_last();
        lemma_retained(d, now, duration);
        let rest = retained(d, now, duration);
        let r = retained(s, now, duration);
        assert forall|k: int| 0 <= k < r.len() implies exists|j: int|
            0 <= j < s.len() && s[j] == #[trigger] r[k] by {
            if k < rest.len() {
                let j = choose|j: int| 0 <= j < d.len() && d[j] == #[trigger] rest[k];
                assert(s[j] == r[k]);
            } else {
                assert(s[s.len() - 1] == r[k]);
            }
        }
        assert forall|j: int|
            0 <= j < s.len() && !is_outdated((#[trigger] s[j]).bedtime, now, duration)
                implies r.contains(s[j]) by {
            if j < s.len() - 1 {
                assert(d[j] == s[j]);
                assert(rest.contains(d[j]));
                let k = choose|k: int| 0 <= k < rest.len() && rest[k] == d[j];
                assert(r[k] == rest[k]);
            } else {
                assert(r[r.len() - 1] == s[j]);
            }
        }
    }
}

impl Schedules {
    pub open spec fn wf(&self) -> bool {
        &&& forall|j: int, k: int|
            0 <= j < k < self.entries@.len() ==> (#[trigger] self.entries@[j]).id
                != (#[trigger] self.entries@[k]).id
        &&& forall|k: int| 0 <= k < self.entries@.len() ==> (#[trigger] self.entries@[k]).bedtime.valid()
    }

    pub fn new() -> (r: Schedules)
        ensures
            r.wf(),
            r.entries@ == Seq::<ScheduleEntry>::empty(),
    {
        Schedules { entries: Vec::new() }
    }

    /// Index of the entry with `id`, or the number of entries if there is none.
    fn locate(&self, id: u128) -> (i: usize)
        ensures
            i <= self.entries@.len(),
            i < self.entries@.len() ==> self.entries@[i as int].id == id,
            i == self.entries@.len() ==> !has_id(self.entries@, id),
    {
        let mut i: usize = 0;
        while i < self.entries.len()
            invariant
                0 <= i <= self.entries@.len(),
                forall|k: int| 0 <= k < i ==> (#[trigger] self.entries@[k]).id != id,
            decreases self.entries@.len() - i,
        {
            if self.entries[i].id == id {
                return i;
            }
            i += 1;
        }
        i
    }

    /// Stores `bedtime` under `id`, replacing the bedtime that had it.
    pub fn insert(&mut self, id: u128, bedtime: Bedtime)
        requires
            old(self).wf(),
            bedtime.valid(),
        ensures
            final(self).wf(),
            has_id(old(self).entries@, id) ==> exists|k: int|
                0 <= k < old(self).entries@.len() && old(self).entries@[k].id == id
                    && final(self).entries@ == old(self).entries@.update(
                    k,
                    ScheduleEntry { id, bedtime },
                ),
            !has_id(old(self).entries@, id) ==> final(self).entries@ == old(self).entries@.push(
                ScheduleEntry { id, bedtime },
            ),
    {
        let i = self.locate(id);
        if i < self.entries.len() {
            self.entries.set(i, ScheduleEntry { id, bedtime });
        } else {
            self.entries.push(ScheduleEntry { id, bedtime });
        }
    }

    /// Creates a bedtime of `user` first occurring at `first` under `id`, appended to the
    /// store; if `id` is taken, nothing changes.
    pub fn create_with_id(&mut self, id: u128, user: u64, first: i64) -> (r: Result<u128, ScheduleError>)
        requires
            old(self).wf(),
            valid_time(first as int),
        ensures
            final(self).wf(),
            has_id(old(self).entries@, id) ==> r == Err::<u128, ScheduleError>(ScheduleError::IdInUse)
                && final(self).entries@ == old(self).entries@,
            !has_id(old(self).entries@, id) ==> r == Ok::<u128, ScheduleError>(id)
                && final(self).entries@.len() == old(self).entries@.len() + 1 && final(self).entries@.subrange(
                0,
                old(self).entries@.len() as int,
            ) == old(self).entries@ && final(self).entries@.last().id == id
                && final(self).entries@.last().bedtime.user == user
                && final(self).entries@.last().bedtime.first == first
                && final(self).entries@.last().bedtime.repeat@ == Set::<int>::empty(),
    {
        if self.locate(id) < self.entries.len() {
            return Err(ScheduleError::IdInUse);
        }
        let bedtime = Bedtime { user, first, repeat: WeekdaySet::new() };
        let ghost before = self.entries@;
        self.insert(id, bedtime);
        assert(self.entries@.subrange(0, before.len() as int) =~= before);
        Ok(id)
    }

    /// Creates a bedtime of `user` first occurring at `first`, under a fresh random id;
    /// if the id drawn is taken, nothing changes.
    pub fn create(&mut self, user: u64, first: i64) -> (r: Result<u128, ScheduleError>)
        requires
            old(self).wf(),
            valid_time(first as int),
        ensures
            final(self).wf(),
            match r {
                Ok(id) => !has_id(old(self).entries@, id) && final(self).entries@.len()
                    == old(self).entries@.len() + 1 && final(self).entries@.subrange(
                    0,
                    old(self).entries@.len() as int,
                ) == old(self).entries@ && final(self).entries@.last().id == id
                    && final(self).entries@.last().bedtime.user == user
                    && final(self).entries@.last().bedtime.first == first
                    && final(self).entries@.last().bedtime.repeat@ == Set::<int>::empty(),
                Err(e) => e == ScheduleError::IdInUse && final(self).entries@ == old(
                    self,
                ).entries@,
            },
    {
        self.create_with_id(crate::ids::random_id(), user, first)
    }

    /// The bedtime `id`, if it belongs to `user`.
    pub fn owned(&self, id: u128, user: u64) -> (r: Result<Bedtime, ScheduleError>)
        requires
            self.wf(),
        ensures
            !has_id(self.entries@, id) ==> r == Err::<Bedtime, ScheduleError>(ScheduleError::NotFound),
            forall|k: int|
                0 <= k < self.entries@.len() && (#[trigger] self.entries@[k]).id == id ==> if self.entries@[k].bedtime.user
                    != user {
                    r == Err::<Bedtime, ScheduleError>(ScheduleError::Forbidden)
                } else {
                    r == Ok::<Bedtime, ScheduleError>(self.entries@[k].bedtime)
                },
    {
        let i = self.locate(id);
        if i == self.entries.len() {
            return Err(ScheduleError::NotFound);
        }
        let b = self.entries[i].bedtime;
        if b.user != user {
            Err(ScheduleError::Forbidden)
        } else {
            Ok(b)
        }
    }

    /// Flips `day` in the repeat days of bedtime `id`, which must belong to `user`.
    pub fn toggle_repeat_day(&mut self, id: u128, user: u64, day: u8) -> (r: Result<Bedtime, ScheduleError>)
        requires
            old(self).wf(),
            day < 7,
        ensures
            final(self).wf(),
            !has_id(old(self).entries@, id) ==> r == Err::<Bedtime, ScheduleError>(ScheduleError::NotFound)
                && final(self).entries@ == old(self).entries@,
            forall|k: int|
                0 <= k < old(self).entries@.len() && (#[trigger] old(self).entries@[k]).id == id ==> {
                    let b = old(self).entries@[k].bedtime;
                    if b.user != user {
                        r == Err::<Bedtime, ScheduleError>(ScheduleError::Forbidden)
                            && final(self).entries@ == old(self).entries@
                    } else {
                        match r {
                            Ok(nb) => nb.user == b.user && nb.first == b.first && nb.repeat@ == (
                            if b.repeat@.contains(day as int) {
                                b.repeat@.remove(day as int)
                            } else {
                                b.repeat@.insert(day as int)
                            }) && final(self).entries@ == old(self).entries@.update(
                                k,
                                ScheduleEntry { id, bedtime: nb },
                            ),
                            Err(_) => false,
                        }
                    }
                },
    {
        let i = self.locate(id);
        if i == self.entries.len() {
            return Err(ScheduleError::NotFound);
        }
        let mut b = self.entries[i].bedtime;
        if b.user != user {
            return Err(ScheduleError::Forbidden);
        }
        let ghost before = self.entries@;
        let ghost b0 = b;
        b.repeat.toggle(day);
        self.entries.set(i, ScheduleEntry { id, bedtime: b });
        proof {
            assert forall|k: int| 0 <= k < before.len() && (#[trigger] before[k]).id == id implies k
                == i by {
                if k != i {
                    if k < i {
                        assert(before[k].id != before[i as int].id);
                    } else {
                        assert(before[i as int].id != before[k].id);
                    }
                }
            }
            assert(before[i as int].bedtime == b0);
            assert(self.entries@ == before.update(i as int, ScheduleEntry { id, bedtime: b }));
        }
        Ok(b)
    }

    /// Removes bedtime `id`, which must belong to `user`, and returns it.
    pub fn delete(&mut self, id: u128, user: u64) -> (r: Result<Bedtime, ScheduleError>)
        requires
            old(self).wf(),
        ensures
            final(self).wf(),
            !has_id(old(self).entries@, id) ==> r == Err::<Bedtime, ScheduleError>(ScheduleError::NotFound)
                && final(self).entries@ == old(self).entries@,
            forall|k: int|
                0 <= k < old(self).entries@.len() && (#[trigger] old(self).entries@[k]).id == id ==> {
                    let b = old(self).entries@[k].bedtime;
                    if b.user != user {
                        r == Err::<Bedtime, ScheduleError>(ScheduleError::Forbidden)
                            && final(self).entries@ == old(self).entries@
                    } else {
                        r == Ok::<Bedtime, ScheduleError>(b) && final(self).entries@
                            == old(self).entries@.remove(k)
                    }
                },
    {
        let i = self.locate(id);
        if i == self.entries.len() {
            return Err(ScheduleError::NotFound);
        }
        let b = self.entries[i].bedtime;
        if b.user != user {
            return Err(ScheduleError::Forbidden);
        }
        let ghost before = self.entries@;
        self.entries.remove(i);
        proof {
            assert forall|j: int, k: int|
                0 <= j < k < self.entries@.len() implies (#[trigger] self.entries@[j]).id
                != (#[trigger] self.entries@[k]).id by {
                let jj = if j < i { j } else { j + 1 };
                let kk = if k < i { k } else { k + 1 };
                assert(self.entries@[j] == before[jj]);
                assert(self.entries@[k] == before[kk]);
            }
            assert forall|k: int| 0 <= k < self.entries@.len() implies (#[trigger] self.entries@[k]).bedtime.valid() by {
                let kk = if k < i { k } else { k + 1 };
                assert(self.entries@[k] == before[kk]);
            }
        }
        Ok(b)
    }

    /// Drops every bedtime that never repeats and ended `duration` before `now`.
    pub fn prune_outdated(&mut self, now: i64, duration: i64)
        requires
            old(self).wf(),
        ensures
            final(self).wf(),
            final(self).entries@ == retained(old(self).entries@, now as int, duration as int),
            forall|k: int|
                0 <= k < final(self).entries@.len() ==> !is_outdated(
                    (#[trigger] final(self).entries@[k]).bedtime,
                    now as int,
                    duration as int,
                ),
    {
        let ghost s = self.entries@;
        let mut kept: Vec<ScheduleEntry> = Vec::new();
        let mut i: usize = 0;
        while i < self.entries.len()
            invariant
                0 <= i <= s.len(),
                self.entries@ == s,
                kept@ == retained(s.subrange(0, i as int), now as int, duration as int),
            decreases s.len() - i,
        {
            let e = self.entries[i];
            assert(s.subrange(0, i + 1).drop_last() =~= s.subrange(0, i as int));
            let outdated = e.bedtime.repeat.is_empty() && (e.bedtime.first as i128) + (duration as i128) < (now as i128);
            if !outdated {
                kept.push(e);
            }
            i += 1;
        }
        assert(s.subrange(0, s.len() as int) =~= s);
        proof {
            lemma_retained(s, now as int, duration as int);
            let r = kept@;
            assert forall|j: int, k: int| 0 <= j < k < r.len() implies (#[trigger] r[j]).id != (#[trigger] r[k]).id by {
                lemma_retained_order(s, now as int, duration as int, j, k);
            }
        }
        self.entries = kept;
    }
}

/// A bedtime that never repeats and ended `duration` before a sweep at `now` is gone from
/// the store after that sweep, and is not enforced at `now` or at any later time.
pub proof fn lemma_sweep_prunes_for_good(s: Seq<ScheduleEntry>, k: int, now: int, duration: int, later: int)
    requires
        0 <= k < s.len(),
        is_outdated(s[k].bedtime, now, duration),
        later >= now,
    ensures
        !retained(s, now, duration).contains(s[k]),
        !is_active(s[k].bedtime, later, duration),
{
    lemma_retained(s, now, duration);
    lemma_outdated_never_active(s[k].bedtime, now, duration, later);
    if retained(s, now, duration).contains(s[k]) {
        let j = choose|j: int| 0 <= j < retained(s, now, duration).len() && retained(s, now, duration)[j] == s[k];
        assert(!is_outdated(retained(s, now, duration)[j].bedtime, now, duration));
    }
}

/// Entries keep their relative order when retained.
pub proof fn lemma_retained_order(s: Seq<ScheduleEntry>, now: int, duration: int, j: int, k: int)
    requires
        forall|a: int, b: int| 0 <= a < b < s.len() ==> (#[trigger] s[a]).id != (#[trigger] s[b]).id,
        0 <= j < k < retained(s, now, duration).len(),
    ensures
        retained(s, now, duration)[j].id != retained(s, now, duration)[k].id,
    decreases s.len(),
{
    let d = s.drop_last();
    let rest = retained(d, now, duration);
    lemma_retained(d, now, duration);
    if k < rest.len() {
        lemma_retained_order(d, now, duration, j, k);
    } else {
        let jj = choose|jj: int| 0 <= jj < d.len() && d[jj] == #[trigger] rest[j];
        assert(s[jj] == d[jj]);
    }
}

/// Some bedtime of `user` among the first `n` entries covers `t`.
pub open spec fn prefix_covers(s: Seq<ScheduleEntry>, n: int, user: u64, now: int, duration: int, t: int) -> bool {
    exists|k: int|
        0 <= k < n && (#[trigger] s[k]).bedtime.user == user && covers_time(
            s[k].bedtime,
            now,
            duration,
            t,
        )
}

/// One of the first `n` occurrences covers `t`.
pub open spec fn occurrences_cover(occ: Seq<i64>, n: int, duration: int, t: int) -> bool {
    exists|j: int| 0 <= j < n && (#[trigger] occ[j]) <= t < occ[j] + duration
}

/// Whether `user` has a bedtime among the entries.
pub open spec fn has_user(s: Seq<ScheduleEntry>, user: u64) -> bool {
    exists|k: int| 0 <= k < s.len() && (#[trigger] s[k]).bedtime.user == user
}

impl Schedules {
    /// The enforcement intervals of `user`'s bedtimes at `now`, merged: `duration` seconds
    /// from each relevant occurrence.
    pub fn bedtime_intervals(&self, user: u64, now: i64, duration: i64) -> (r: IntervalSet)
        requires
            self.wf(),
            valid_time(now as int),
            valid_time(duration as int),
        ensures
            r.wf(),
            forall|t: int| #[trigger]
                r.covers(t) <==> user_covers(self.entries@, user, now as int, duration as int, t),
    {
        let ghost s = self.entries@;
        let ghost tn = now as int;
        let ghost td = duration as int;
        let mut set = IntervalSet::new();
        let mut i: usize = 0;
        while i < self.entries.len()
            invariant
                0 <= i <= s.len(),
                self.entries@ == s,
                self.wf(),
                tn == now as int,
                td == duration as int,
                valid_time(tn),
                valid_time(td),
                set.wf(),
                forall|t: int| #[trigger]
                    set.covers(t) <==> prefix_covers(s, i as int, user, tn, td, t),
            decreases s.len() - i,
        {
            let b = self.entries[i].bedtime;
            assert(b.valid());
            if b.user == user {
                let all = b.currently_relevant_bedtimes(now);
                let mut j: usize = 0;
                while j < all.len()
                    invariant
                        0 <= j <= all@.len(),
                        s[i as int].bedtime == b,
                        b.user == user,
                        b.valid(),
                        i < s.len(),
                        tn == now as int,
                        td == duration as int,
                        valid_time(tn),
                        valid_time(td),
                        set.wf(),
                        forall|jj: int| 0 <= jj < all@.len() ==> is_relevant(b, tn, #[trigger] all@[jj] as int),
                        forall|t: int| #[trigger]
                            set.covers(t) <==> (prefix_covers(s, i as int, user, tn, td, t)
                                || occurrences_cover(all@, j as int, td, t)),
                    decreases all@.len() - j,
                {
                    let o = all[j];
                    proof {
                        lemma_relevant_bounds(b, tn, o as int);
                    }
                    let ghost before = set;
                    set.add(o, o + duration);
                    assert forall|t: int| #[trigger] set.covers(t) <==> (prefix_covers(s, i as int, user, tn, td, t)
                        || occurrences_cover(all@, j + 1, td, t)) by {
                        assert(set.covers(t) <==> (before.covers(t) || o <= t < o + duration));
                        if occurrences_cover(all@, j + 1, td, t) {
                            let jj = choose|jj: int| 0 <= jj < j + 1 && (#[trigger] all@[jj]) <= t < all@[jj] + duration;
                            if jj < j {
                                assert(occurrences_cover(all@, j as int, td, t));
                            }
                        }
                        if o <= t < o + duration {
                            assert(all@[j as int] == o);
                        }
                        if occurrences_cover(all@, j as int, td, t) {
                            let jj = choose|jj: int| 0 <= jj < j && (#[trigger] all@[jj]) <= t < all@[jj] + duration;
                            assert(occurrences_cover(all@, j + 1, td, t));
                        }
                    }
                    j += 1;
                }
                assert forall|t: int| #[trigger] set.covers(t) <==> prefix_covers(s, i + 1, user, tn, td, t) by {
                    if occurrences_cover(all@, all@.len() as int, td, t) {
                        let jj = choose|jj: int| 0 <= jj < all@.len() && (#[trigger] all@[jj]) <= t < all@[jj] + duration;
                        assert(is_relevant(b, tn, all@[jj] as int));
                        assert(covers_time(b, tn, td, t));
                        assert(s[i as int].bedtime.user == user);
                    }
                    if prefix_covers(s, i + 1, user, tn, td, t) {
                        let k = choose|k: int|
                            0 <= k < i + 1 && (#[trigger] s[k]).bedtime.user == user && covers_time(s[k].bedtime, tn, td, t);
                        if k == i {
                            let o = choose|o: int| #[trigger] is_relevant(b, tn, o) && o <= t < o + duration;
                            let jj = choose|jj: int| 0 <= jj < all@.len() && #[trigger] all@[jj] == o;
                            assert(occurrences_cover(all@, all@.len() as int, td, t));
                        } else {
                            assert(prefix_covers(s, i as int, user, tn, td, t));
                        }
                    }
                    if prefix_covers(s, i as int, user, tn, td, t) {
                        let k = choose|k: int|
                            0 <= k < i && (#[trigger] s[k]).bedtime.user == user && covers_time(s[k].bedtime, tn, td, t);
                        assert(prefix_covers(s, i + 1, user, tn, td, t));
                    }
                }
            } else {
                assert forall|t: int| #[trigger] set.covers(t) <==> prefix_covers(s, i + 1, user, tn, td, t) by {
                    if prefix_covers(s, i + 1, user, tn, td, t) {
                        let k = choose|k: int|
                            0 <= k < i + 1 && (#[trigger] s[k]).bedtime.user == user && covers_time(s[k].bedtime, tn, td, t);
                        assert(k != i);
                        assert(prefix_covers(s, i as int, user, tn, td, t));
                    }
                    if prefix_covers(s, i as int, user, tn, td, t) {
                        let k = choose|k: int|
                            0 <= k < i && (#[trigger] s[k]).bedtime.user == user && covers_time(s[k].bedtime, tn, td, t);
                        assert(prefix_covers(s, i + 1, user, tn, td, t));
                    }
                }
            }
            i += 1;
        }
        assert forall|t: int| #[trigger] set.covers(t) <==> user_covers(s, user, tn, td, t) by {
            if prefix_covers(s, s.len() as int, user, tn, td, t) {
                let k = choose|k: int|
                    0 <= k < s.len() && (#[trigger] s[k]).bedtime.user == user && covers_time(s[k].bedtime, tn, td, t);
                assert(user_covers(s, user, tn, td, t));
            }
            if user_covers(s, user, tn, td, t) {
                let k = choose|k: int|
                    0 <= k < s.len() && (#[trigger] s[k]).bedtime.user == user && covers_time(s[k].bedtime, tn, td, t);
                assert(prefix_covers(s, s.len() as int, user, tn, td, t));
            }
        }
        set
    }

    /// Whether one of `user`'s bedtimes is being enforced at `now`.
    pub fn is_enforced(&self, user: u64, now: i64, duration: i64) -> (r: bool)
        requires
            self.wf(),
            valid_time(now as int),
            valid_time(duration as int),
        ensures
            r == user_in_bedtime(self.entries@, user, now as int, duration as int),
    {
        let set = self.bedtime_intervals(user, now, duration);
        let found = set.find(now);
        proof {
            let s = self.entries@;
            let tn = now as int;
            let td = duration as int;
            assert(set.covers(now as int) <==> user_covers(s, user, tn, td, now as int));
            if user_covers(s, user, tn, td, now as int) {
                let k = choose|k: int|
                    0 <= k < s.len() && (#[trigger] s[k]).bedtime.user == user && covers_time(s[k].bedtime, tn, td, now as int);
                assert(is_active(s[k].bedtime, tn, td));
            }
            if user_in_bedtime(s, user, tn, td) {
                let k = choose|k: int|
                    0 <= k < s.len() && (#[trigger] s[k]).bedtime.user == user && is_active(s[k].bedtime, tn, td);
                assert(covers_time(s[k].bedtime, tn, td, now as int));
            }
        }
        found.is_some()
    }

    /// The bedtimes of `user`, in store order, except the one with id `except`.
    pub fn others_of_user(&self, user: u64, except: u128) -> (r: Vec<ScheduleEntry>)
        ensures
            r@ == self.entries@.filter(|e: ScheduleEntry| e.bedtime.user == user && e.id != except),
    {
        let ghost s = self.entries@;
        let ghost keep = |e: ScheduleEntry| e.bedtime.user == user && e.id != except;
        let mut out: Vec<ScheduleEntry> = Vec::new();
        let mut i: usize = 0;
        while i < self.entries.len()
            invariant
                0 <= i <= s.len(),
                s == self.entries@,
                keep == (|e: ScheduleEntry| e.bedtime.user == user && e.id != except),
                out@ == s.subrange(0, i as int).filter(keep),
            decreases s.len() - i,
        {
            let e = self.entries[i];
            proof {
                reveal_with_fuel(Seq::filter, 1);
                assert(s.subrange(0, i + 1).drop_last() =~= s.subrange(0, i as int));
            }
            if e.bedtime.user == user && e.id != except {
                out.push(e);
            }
            i += 1;
        }
        assert(s.subrange(0, s.len() as int) =~= s);
        out
    }

    /// The members that have a bedtime, each once.
    pub fn users(&self) -> (r: Vec<u64>)
        ensures
            forall|u: u64| r@.contains(u) <==> has_user(self.entries@, u),
            forall|a: int, b: int| 0 <= a < b < r@.len() ==> (#[trigger] r@[a]) != (#[trigger] r@[b]),
    {
        let ghost s = self.entries@;
        let mut r: Vec<u64> = Vec::new();
        let mut i: usize = 0;
        while i < self.entries.len()
            invariant
                0 <= i <= s.len(),
                self.entries@ == s,
                forall|u: u64| r@.contains(u) <==> exists|k: int| 0 <= k < i && (#[trigger] s[k]).bedtime.user == u,
                forall|a: int, b: int| 0 <= a < b < r@.len() ==> (#[trigger] r@[a]) != (#[trigger] r@[b]),
            decreases s.len() - i,
        {
            let u = self.entries[i].bedtime.user;
            let mut seen = false;
            let mut j: usize = 0;
            while j < r.len()
                invariant
                    0 <= j <= r@.len(),
                    seen <==> exists|m: int| 0 <= m < j && r@[m] == u,
                decreases r@.len() - j,
            {
                if r[j] == u {
                    seen = true;
                }
                j += 1;
            }
            let ghost r0 = r@;
            if !seen {
                r.push(u);
                assert forall|v: u64| r@.contains(v) <==> exists|k: int| 0 <= k < i + 1 && (#[trigger] s[k]).bedtime.user == v by {
                    if r@.contains(v) {
                        let m = choose|m: int| 0 <= m < r@.len() && r@[m] == v;
                        if m < r0.len() {
                            assert(r0.contains(v));
                        }
                    }
                    if exists|k: int| 0 <= k < i + 1 && (#[trigger] s[k]).bedtime.user == v {
                        let k = choose|k: int| 0 <= k < i + 1 && (#[trigger] s[k]).bedtime.user == v;
                        if k < i {
                            assert(r0.contains(v));
                            let m = choose|m: int| 0 <= m < r0.len() && r0[m] == v;
                            assert(r@[m] == v);
                        } else {
                            assert(r@[r0.len() as int] == v);
                        }
                    }
                }
                assert forall|a: int, b: int| 0 <= a < b < r@.len() implies (#[trigger] r@[a]) != (#[trigger] r@[b]) by {
                    if b == r0.len() {
                        assert(r0[a] == r@[a]);
                        assert(r0.contains(r0[a]));
                    }
                }
            } else {
                assert forall|v: u64| r@.contains(v) <==> exists|k: int| 0 <= k < i + 1 && (#[trigger] s[k]).bedtime.user == v by {
                    if exists|k: int| 0 <= k < i + 1 && (#[trigger] s[k]).bedtime.user == v {
                        let k = choose|k: int| 0 <= k < i + 1 && (#[trigger] s[k]).bedtime.user == v;
                        if k == i {
                            let m = choose|m: int| 0 <= m < r@.len() && r@[m] == u;
                            assert(r@.contains(v));
                        }
                    }
                    if r@.contains(v) {
                        let k = choose|k: int| 0 <= k < i && (#[trigger] s[k]).bedtime.user == v;
                        assert(exists|k: int| 0 <= k < i + 1 && (#[trigger] s[k]).bedtime.user == v);
                    }
                }
            }
            i += 1;
        }
        r
    }

    /// One pass of the enforcement loop at `now`: for each member with a bedtime, whether
    /// it is being enforced; then the outdated bedtimes are dropped.
    pub fn sweep(&mut self, now: i64, duration: i64) -> (r: Vec<(u64, bool)>)
        requires
            old(self).wf(),
            valid_time(now as int),
            valid_time(duration as int),
        ensures
            final(self).wf(),
            final(self).entries@ == retained(old(self).entries@, now as int, duration as int),
            forall|u: u64| has_user(old(self).entries@, u) <==> exists|i: int| 0 <= i < r@.len() && (#[trigger] r@[i]).0 == u,
            forall|a: int, b: int| 0 <= a < b < r@.len() ==> (#[trigger] r@[a]).0 != (#[trigger] r@[b]).0,
            forall|i: int| 0 <= i < r@.len() ==> (#[trigger] r@[i]).1 == user_in_bedtime(
                old(self).entries@,
                r@[i].0,
                now as int,
                duration as int,
            ),
    {
        let users = self.users();
        let ghost s = self.entries@;
        let mut r: Vec<(u64, bool)> = Vec::new();
        let mut i: usize = 0;
        while i < users.len()
            invariant
                0 <= i <= users@.len(),
                self.entries@ == s,
                self.wf(),
                valid_time(now as int),
                valid_time(duration as int),
                r@.len() == i,
                forall|j: int| 0 <= j < i ==> (#[trigger] r@[j]).0 == users@[j],
                forall|j: int| 0 <= j < i ==> (#[trigger] r@[j]).1 == user_in_bedtime(s, r@[j].0, now as int, duration as int),
            decreases users@.len() - i,
        {
            let u = users[i];
            let enforced = self.is_enforced(u, now, duration);
            r.push((u, enforced));
            i += 1;
        }
        proof {
            assert forall|u: u64| has_user(s, u) <==> exists|i: int| 0 <= i < r@.len() && (#[trigger] r@[i]).0 == u by {
                if has_user(s, u) {
                    assert(users@.contains(u));
                    let m = choose|m: int| 0 <= m < users@.len() && users@[m] == u;
                    assert(r@[m].0 == u);
                }
                if exists|i: int| 0 <= i < r@.len() && (#[trigger] r@[i]).0 == u {
                    let i = choose|i: int| 0 <= i < r@.len() && (#[trigger] r@[i]).0 == u;
                    assert(users@[i] == u);
                    assert(users@.contains(u));
                }
            }
            assert forall|a: int, b: int| 0 <= a < b < r@.len() implies (#[trigger] r@[a]).0 != (#[trigger] r@[b]).0 by {
                assert(users@[a] != users@[b]);
            }
        }
        self.prune_outdated(now, duration);
        r
    }
}

} // verus!
