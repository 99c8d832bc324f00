//! The recursive freeze of a target: the counter that decides when the
//! target has to be stopped and resumed, and the interface of a lock.

use vstd::prelude::*;

verus! {

/// Why the target could not be locked.
#[derive(Debug, Copy, Clone, PartialEq, Eq, Structural)]
pub enum LockError {
    /// The target is locked exclusively, or one more lock would make the
    /// count that of the exclusive lock.
    AlreadyLocked,
    /// The platform failed to stop the target; the value is its error code.
    PlatformError(i32),
}

/// Why the target could not be unlocked.
#[derive(Debug, Copy, Clone, PartialEq, Eq, Structural)]
pub enum UnlockError {
    /// No lock is held.
    NotLocked,
    /// The platform failed to resume the target; the value is its error
    /// code.
    PlatformError(i32),
}

/// The state of a lock: how many times it is held, with the largest count
/// standing for the exclusive lock, and whether the target is stopped.
pub struct LockModel {
    pub count: usize,
    pub frozen: bool,
}

impl LockModel {
    /// The state in which no lock is held.
    pub open spec fn detached() -> Self {
        LockModel { count: 0, frozen: false }
    }

    /// The target is stopped exactly while a lock is held.
    pub open spec fn consistent(self) -> bool {
        self.frozen <==> self.count > 0
    }

    /// The state after `lock`, where `stop` is what the platform answered
    /// when it was asked to stop the target. The count never climbs into the
    /// exclusive state: that is reached from the detached state only, by
    /// `lock_exclusive`.
    pub open spec fn after_lock(self, stop: Result<(), i32>) -> Self {
        if self.count == 0 {
            if stop is Ok {
                LockModel { count: 1, frozen: true }
            } else {
                self
            }
        } else if self.count >= usize::MAX - 1 {
            self
        } else {
            LockModel { count: (self.count + 1) as usize, frozen: self.frozen }
        }
    }

    /// What `lock` returns: `true` where the target was stopped by this
    /// call, `false` where only the count grew. It is refused where the lock
    /// is held exclusively, and where one more lock would make the count that
    /// of the exclusive lock.
    pub open spec fn lock_result(self, stop: Result<(), i32>) -> Result<bool, LockError> {
        if self.count == 0 {
            match stop {
                Ok(_) => Ok(true),
                Err(code) => Err(LockError::PlatformError(code)),
            }
        } else if self.count >= usize::MAX - 1 {
            Err(LockError::AlreadyLocked)
        } else {
            Ok(false)
        }
    }

    /// The state after `lock_exclusive`.
    pub open spec fn after_lock_exclusive(self, stop: Result<(), i32>) -> Self {
        if self.count == 0 && stop is Ok {
            LockModel { count: usize::MAX, frozen: true }
        } else {
            self
        }
    }

    /// What `lock_exclusive` returns.
    pub open spec fn lock_exclusive_result(self, stop: Result<(), i32>) -> Result<(), LockError> {
        if self.count == 0 {
            match stop {
                Ok(_) => Ok(()),
                Err(code) => Err(LockError::PlatformError(code)),
            }
        } else {
            Err(LockError::AlreadyLocked)
        }
    }

    /// The state after `unlock`, where `resume` is what the platform
    /// answered when it was asked to let the target run.
    pub open spec fn after_unlock(self, resume: Result<(), i32>) -> Self {
        if self.count == 0 {
            self
        } else if self.count == 1 || self.count == usize::MAX {
            if resume is Ok {
                LockModel { count: 0, frozen: false }
            } else {
                self
            }
        } else {
            LockModel { count: (self.count - 1) as usize, frozen: self.frozen }
        }
    }

    /// What `unlock` returns: `true` where the target was resumed by this
    /// call, `false` where only the count fell.
    pub open spec fn unlock_result(self, resume: Result<(), i32>) -> Result<bool, UnlockError> {
        if self.count == 0 {
            Err(UnlockError::NotLocked)
        } else if self.count == 1 || self.count == usize::MAX {
            match resume {
                Ok(_) => Ok(true),
                Err(code) => Err(UnlockError::PlatformError(code)),
            }
        } else {
            Ok(false)
        }
    }
}

/// What the platform has to do for the target before a request can be
/// carried out.
#[derive(Debug, Copy, Clone, PartialEq, Eq, Structural)]
pub enum PlatformStep {
    /// Nothing: the request only changes the count, or is refused.
    Nothing,
    /// Stop the target.
    Stop,
    /// Let the target run.
    Resume,
}

/// The recursive lock count of one target.
///
/// The counter decides; the platform acts. Before each request the caller
/// asks which step the request needs, performs it, and hands the outcome to
/// the request. The outcome is looked at only where a step was needed.
#[derive(Debug)]
pub struct LockCounter {
    count: usize,
    frozen: bool,
}

impl View for LockCounter {
    type V = LockModel;

    closed spec fn view(&self) -> LockModel {
        LockModel { count: self.count, frozen: self.frozen }
    }
}

impl LockCounter {
    #[verifier::type_invariant]
    spec fn inv(self) -> bool {
        self.frozen <==> self.count > 0
    }

    /// A counter for a target that is not locked.
    pub fn new() -> (r: Self)
        ensures
            r@ == LockModel::detached(),
    {
        LockCounter { count: 0, frozen: false }
    }

    /// How many times the lock is held; the largest count stands for the
    /// exclusive lock.
    pub fn count(&self) -> (r: usize)
        ensures
            r == self@.count,
    {
        self.count
    }

    /// Whether the target is stopped, which it is exactly while a lock is
    /// held.
    pub fn is_frozen(&self) -> (r: bool)
        ensures
            r == self@.frozen,
            r == (self@.count > 0),
            self@.consistent(),
    {
        proof {
            use_type_invariant(self);
        }
        self.frozen
    }

    /// Whether the lock is held exclusively.
    pub fn is_exclusive(&self) -> (r: bool)
        ensures
            r == (self@.count == usize::MAX),
    {
        self.count == usize::MAX
    }

    /// The step that `lock` and `lock_exclusive` need: the target is stopped
    /// where no lock is held yet.
    pub fn lock_step(&self) -> (r: PlatformStep)
        ensures
            r == (if self@.count == 0 {
                PlatformStep::Stop
            } else {
                PlatformStep::Nothing
            }),
    {
        if self.count == 0 {
            PlatformStep::Stop
        } else {
            PlatformStep::Nothing
        }
    }

    /// The step that `unlock` needs: the target is resumed where the last
    /// lock, or the exclusive one, is given up.
    pub fn unlock_step(&self) -> (r: PlatformStep)
        ensures
            r == (if self@.count == 1 || self@.count == usize::MAX {
                PlatformStep::Resume
            } else {
                PlatformStep::Nothing
            }),
    {
        if self.count == 1 || self.count == usize::MAX {
            PlatformStep::Resume
        } else {
            PlatformStep::Nothing
        }
    }

    /// Locks the target once more.
    pub fn lock(&mut self, stop: Result<(), i32>) -> (r: Result<bool, LockError>)
        ensures
            final(self)@ == old(self)@.after_lock(stop),
            r == old(self)@.lock_result(stop),
            final(self)@.consistent(),
    {
        proof {
            use_type_invariant(&*self);
        }
        if self.count == 0 {
            match stop {
                Ok(_) => {
                    *self = LockCounter { count: 1, frozen: true };
                    Ok(true)
                },
                Err(code) => Err(LockError::PlatformError(code)),
            }
        } else if self.count >= usize::MAX - 1 {
            Err(LockError::AlreadyLocked)
        } else {
            *self = LockCounter { count: self.count + 1, frozen: self.frozen };
            Ok(false)
        }
    }

    /// Locks the target exclusively, which succeeds only where no lock is
    /// held.
    pub fn lock_exlusive(&mut self, stop: Result<(), i32>) -> (r: Result<(), LockError>)
        ensures
            final(self)@ == old(self)@.after_lock_exclusive(stop),
            r == old(self)@.lock_exclusive_result(stop),
            final(self)@.consistent(),
    {
        proof {
            use_type_invariant(&*self);
        }
        if self.count == 0 {
            match stop {
                Ok(_) => {
                    *self = LockCounter { count: usize::MAX, frozen: true };
                    Ok(())
                },
                Err(code) => Err(LockError::PlatformError(code)),
            }
        } else {
            Err(LockError::AlreadyLocked)
        }
    }

    /// Gives up one lock, or the exclusive lock.
    pub fn unlock(&mut self, resume: Result<(), i32>) -> (r: Result<bool, UnlockError>)
        ensures
            final(self)@ == old(self)@.after_unlock(resume),
            r == old(self)@.unlock_result(resume),
            final(self)@.consistent(),
    {
        proof {
            use_type_invariant(&*self);
        }
        if self.count == 0 {
            return Err(UnlockError::NotLocked);
        }
        if self.count == 1 || self.count == usize::MAX {
            match resume {
                Ok(_) => {
                    *self = LockCounter { count: 0, frozen: false };
                    Ok(true)
                },
                Err(code) => Err(UnlockError::PlatformError(code)),
            }
        } else {
            *self = LockCounter { count: self.count - 1, frozen: self.frozen };
            Ok(false)
        }
    }
}

/// A lock on the memory of a target. Reading without a lock, and writing
/// without the exclusive lock, may race with the target.
pub trait MemoryLock {
    /// The state of the lock.
    spec fn state(&self) -> LockModel;

    /// Locks the target recursively. Returns `true` where the lock was
    /// acquired by this call, `false` where only the count grew.
    fn lock(&mut self) -> (r: Result<bool, LockError>)
        ensures
            exists|stop: Result<(), i32>|
                final(self).state() == old(self).state().after_lock(stop) && r == old(
                    self,
                ).state().lock_result(stop),
    ;

    /// Locks the target exclusively.
    fn lock_exlusive(&mut self) -> (r: Result<(), LockError>)
        ensures
            exists|stop: Result<(), i32>|
                final(self).state() == old(self).state().after_lock_exclusive(stop) && r == old(
                    self,
                ).state().lock_exclusive_result(stop),
    ;

    /// Unlocks the target once. Returns `true` where the lock was released
    /// by this call, `false` where only the count fell.
    fn unlock(&mut self) -> (r: Result<bool, UnlockError>)
        ensures
            exists|resume: Result<(), i32>|
                final(self).state() == old(self).state().after_unlock(resume) && r == old(
                    self,
                ).state().unlock_result(resume),
    ;
}

/// A lock that stands alone: there is no target to stop, so every platform
/// step succeeds. It serves where the freeze is not needed or is provided
/// by other means.
impl MemoryLock for LockCounter {
    open spec fn state(&self) -> LockModel {
        self@
    }

    fn lock(&mut self) -> (r: Result<bool, LockError>) {
        let r = LockCounter::lock(self, Ok(()));
        proof {
            let stop = Ok::<(), i32>(());
            assert(final(self).state() == old(self).state().after_lock(stop) && r == old(
                self,
            ).state().lock_result(stop));
        }
        r
    }

    fn lock_exlusive(&mut self) -> (r: Result<(), LockError>) {
        let r = LockCounter::lock_exlusive(self, Ok(()));
        proof {
            let stop = Ok::<(), i32>(());
            assert(final(self).state() == old(self).state().after_lock_exclusive(stop) && r
                == old(self).state().lock_exclusive_result(stop));
        }
        r
    }

    fn unlock(&mut self) -> (r: Result<bool, UnlockError>) {
        let r = LockCounter::unlock(self, Ok(()));
        proof {
            let resume = Ok::<(), i32>(());
            assert(final(self).state() == old(self).state().after_unlock(resume) && r == old(
                self,
            ).state().unlock_result(resume));
        }
        r
    }
}

/// The state after a sequence of requests that the platform never fails:
/// `true` stands for `lock`, `false` for `unlock`.
pub open spec fn replay(start: LockModel, requests: Seq<bool>) -> LockModel
    decreases requests.len(),
{
    if requests.len() == 0 {
        start
    } else {
        let before = replay(start, requests.drop_last());
        if requests.last() {
            before.after_lock(Ok(()))
        } else {
            before.after_unlock(Ok(()))
        }
    }
}

/// The number of `lock` requests less the number of `unlock` requests.
pub open spec fn depth(requests: Seq<bool>) -> int
    decreases requests.len(),
{
    if requests.len() == 0 {
        0
    } else if requests.last() {
        depth(requests.drop_last()) + 1
    } else {
        depth(requests.drop_last()) - 1
    }
}

/// Every `unlock` gives up a lock that an earlier `lock` took, and in the
/// end none is held.
pub open spec fn balanced(requests: Seq<bool>) -> bool {
    &&& depth(requests) == 0
    &&& forall|i: int| 0 <= i <= requests.len() ==> depth(#[trigger] requests.take(i)) >= 0
}

/// What the request returns in `state` is `Ok`.
pub open spec fn granted(state: LockModel, request: bool) -> bool {
    if request {
        state.lock_result(Ok(())) is Ok
    } else {
        state.unlock_result(Ok(())) is Ok
    }
}

/// Every request of the sequence, started with no lock held, succeeds.
pub open spec fn all_granted(requests: Seq<bool>) -> bool {
    forall|i: int|
        0 <= i < requests.len() ==> granted(
            replay(LockModel::detached(), #[trigger] requests.take(i)),
            requests[i],
        )
}

/// Whatever is requested and however often, the target is stopped exactly
/// while the count is positive.
pub proof fn lemma_replay_consistent(start: LockModel, requests: Seq<bool>)
    requires
        start.consistent(),
    ensures
        replay(start, requests).consistent(),
    decreases requests.len(),
{
    if requests.len() > 0 {
        lemma_replay_consistent(start, requests.drop_last());
    }
}

proof fn lemma_count_below_depth(requests: Seq<bool>, i: int)
    requires
        forall|j: int| 0 <= j <= requests.len() ==> depth(#[trigger] requests.take(j)) >= 0,
        0 <= i <= requests.len(),
    ensures
        replay(LockModel::detached(), requests.take(i)).count <= depth(requests.take(i)),
        replay(LockModel::detached(), requests.take(i)).count < usize::MAX,
    decreases i,
{
    if i > 0 {
        lemma_count_below_depth(requests, i - 1);
        assert(requests.take(i).drop_last() =~= requests.take(i - 1));
        assert(depth(requests.take(i)) >= 0);
        assert(depth(requests.take(i - 1)) >= 0);
    }
}

/// After a balanced sequence of requests, started with no lock held, the
/// target runs and no lock is held, whether each request was granted or not;
/// and after each prefix of it the target is stopped exactly if the count is
/// positive.
pub proof fn lemma_balanced_requests(requests: Seq<bool>, i: int)
    requires
        balanced(requests),
        0 <= i <= requests.len(),
    ensures
        replay(LockModel::detached(), requests) == LockModel::detached(),
        replay(LockModel::detached(), requests.take(i)).frozen <==> replay(
            LockModel::detached(),
            requests.take(i),
        ).count > 0,
{
    lemma_count_below_depth(requests, requests.len() as int);
    assert(requests.take(requests.len() as int) =~= requests);
    lemma_replay_consistent(LockModel::detached(), requests);
    lemma_replay_consistent(LockModel::detached(), requests.take(i));
}

/// Where every request of a sequence succeeds, the count after each prefix
/// is the number of locks taken and not yet given up, and it stays below the
/// count of the exclusive lock.
pub proof fn lemma_granted_requests(requests: Seq<bool>, i: int)
    requires
        all_granted(requests),
        0 <= i <= requests.len(),
    ensures
        replay(LockModel::detached(), requests.take(i)).count == depth(requests.take(i)),
        replay(LockModel::detached(), requests.take(i)).frozen <==> depth(requests.take(i)) > 0,
        0 <= depth(requests.take(i)) < usize::MAX,
    decreases i,
{
    if i > 0 {
        lemma_granted_requests(requests, i - 1);
        assert(requests.take(i).drop_last() =~= requests.take(i - 1));
        assert(requests.take(i).last() == requests[i - 1]);
        assert(granted(replay(LockModel::detached(), requests.take(i - 1)), requests[i - 1]));
    }
}

/// The last request of a balanced sequence whose requests all succeed is an
/// `unlock` that releases the lock: it asks for the target to be resumed,
/// returns `true`, and leaves no lock held and the target running.
pub proof fn lemma_last_unlock_releases(requests: Seq<bool>)
    requires
        balanced(requests),
        all_granted(requests),
        requests.len() > 0,
    ensures
        !requests.last(),
        ({
            let before = replay(LockModel::detached(), requests.drop_last());
            &&& before.count == 1
            &&& before.unlock_result(Ok(())) == Ok::<bool, UnlockError>(true)
            &&& before.after_unlock(Ok(())) == LockModel::detached()
        }),
{
    let n = requests.len() as int;
    lemma_granted_requests(requests, n - 1);
    lemma_granted_requests(requests, n);
    assert(requests.take(n) =~= requests);
    assert(requests.take(n - 1) =~= requests.drop_last());
    assert(granted(replay(LockModel::detached(), requests.take(n - 1)), requests[n - 1]));
}

} // verus!
