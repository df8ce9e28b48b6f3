//! The capacity ledger: for each configured semaphore its maximum and what is
//! granted of it right now.

use vstd::prelude::*;
use crate::error::ThrottleError;

verus! {

/// One named pool of capacity.
pub struct Semaphore {
    pub name: String,
    pub max: i64,
    pub granted: i64,
}

/// All configured semaphores. Their position is their rank in the order in
/// which a peer may acquire them: one configured earlier ranks lower.
pub struct SemaphoreLedger {
    pub semaphores: Vec<Semaphore>,
}

impl SemaphoreLedger {
    /// Nothing is granted beyond a maximum, and no name occurs twice.
    pub open spec fn wf(&self) -> bool {
        &&& forall|s: int|
            0 <= s < self.semaphores@.len() ==> 0 <= (#[trigger] self.semaphores@[s]).granted
                <= self.semaphores@[s].max
        &&& forall|s: int, t: int|
            0 <= s < t < self.semaphores@.len() ==> (#[trigger] self.semaphores@[s]).name@ != (
            #[trigger] self.semaphores@[t]).name@
    }

    /// The number of configured semaphores.
    pub open spec fn len(&self) -> int {
        self.semaphores@.len() as int
    }

    /// Whether a semaphore of this name is configured.
    pub open spec fn known(&self, name: Seq<char>) -> bool {
        exists|s: int| 0 <= s < self.semaphores@.len() && (#[trigger] self.semaphores@[s]).name@ == name
    }

    /// The rank of the semaphore of this name, where it is configured.
    pub open spec fn rank(&self, name: Seq<char>) -> int {
        choose|s: int| 0 <= s < self.semaphores@.len() && (#[trigger] self.semaphores@[s]).name@ == name
    }

    /// The maximum of the semaphore at rank `s`.
    pub open spec fn max_at(&self, s: int) -> int {
        self.semaphores@[s].max as int
    }

    /// What is granted of the semaphore at rank `s`.
    pub open spec fn granted_at(&self, s: int) -> int {
        self.semaphores@[s].granted as int
    }

    /// Names and maxima are those of `other`.
    pub open spec fn same_config(&self, other: &SemaphoreLedger) -> bool {
        &&& self.len() == other.len()
        &&& forall|s: int|
            0 <= s < self.len() ==> (#[trigger] self.semaphores@[s]).name@ == other.semaphores@[s].name@
                && self.semaphores@[s].max == other.semaphores@[s].max
    }

    /// Names, maxima and grants are those of `other`, but for the grant at rank `s`.
    pub open spec fn same_but_granted(&self, other: &SemaphoreLedger, s: int) -> bool {
        &&& self.same_config(other)
        &&& forall|t: int|
            0 <= t < self.len() && t != s ==> (#[trigger] self.semaphores@[t]).granted
                == other.semaphores@[t].granted
    }

    /// A ledger with no semaphore.
    pub fn new() -> (ledger: SemaphoreLedger)
        ensures
            ledger.wf(),
            ledger.len() == 0,
    {
        SemaphoreLedger { semaphores: Vec::new() }
    }

    /// Configures a semaphore with nothing granted, ranked above all earlier
    /// ones. Refuses a name that is already configured and a negative maximum.
    pub fn add(&mut self, name: &str, max: i64) -> (added: bool)
        requires
            old(self).wf(),
        ensures
            final(self).wf(),
            added == (max >= 0 && !old(self).known(name@)),
            !added ==> *final(self) == *old(self),
            added ==> final(self).len() == old(self).len() + 1 && final(self).known(name@)
                && final(self).rank(name@) == old(self).len() && final(self).max_at(
                old(self).len(),
            ) == max && final(self).granted_at(old(self).len()) == 0 && (forall|s: int|
                0 <= s < old(self).len() ==> final(self).semaphores@[s] == old(self).semaphores@[s]),
    {
        if max < 0 {
            return false;
        }
        if self.index_of(name).is_some() {
            return false;
        }
        let ghost before = self.semaphores@;
        self.semaphores.push(Semaphore { name: name.to_owned(), max, granted: 0 });
        proof {
            let n = before.len() as int;
            assert(self.semaphores@[n].name@ == name@);
            assert forall|s: int, t: int| 0 <= s < t < self.semaphores@.len() implies (
            #[trigger] self.semaphores@[s]).name@ != (#[trigger] self.semaphores@[t]).name@ by {
                if t == n {
                    assert(before[s] == self.semaphores@[s]);
                } else {
                    assert(before[s] == self.semaphores@[s]);
                    assert(before[t] == self.semaphores@[t]);
                }
            }
            assert(self.wf());
            assert(self.known(name@));
        }
        true
    }

    /// The rank of the semaphore of this name, if it is configured.
    pub fn index_of(&self, name: &str) -> (found: Option<usize>)
        requires
            self.wf(),
        ensures
            found is Some == self.known(name@),
            found matches Some(s) ==> s == self.rank(name@) && s < self.len()
                && self.semaphores@[s as int].name@ == name@,
    {
        let wanted = name.to_owned();
        let mut s: usize = 0;
        while s < self.semaphores.len()
            invariant
                self.wf(),
                s <= self.semaphores@.len(),
                wanted@ == name@,
                forall|t: int| 0 <= t < s ==> (#[trigger] self.semaphores@[t]).name@ != name@,
            decreases self.semaphores@.len() - s,
        {
            if self.semaphores[s].name == wanted {
                proof {
                    assert(self.known(name@));
                    let r = self.rank(name@);
                    assert(self.semaphores@[r].name@ == name@);
                    assert(self.semaphores@[s as int].name@ == name@);
                    assert(r == s);
                }
                return Some(s);
            }
            s += 1;
        }
        None
    }

    /// The maximum of the named semaphore.
    pub fn max(&self, name: &str) -> (r: Result<i64, ThrottleError>)
        requires
            self.wf(),
        ensures
            r == (if self.known(name@) {
                Ok::<i64, ThrottleError>(self.semaphores@[self.rank(name@)].max)
            } else {
                Err(ThrottleError::UnknownSemaphore)
            }),
    {
        match self.index_of(name) {
            Some(s) => Ok(self.semaphores[s].max),
            None => Err(ThrottleError::UnknownSemaphore),
        }
    }

    /// What is granted of the named semaphore.
    pub fn granted(&self, name: &str) -> (r: Result<i64, ThrottleError>)
        requires
            self.wf(),
        ensures
            r == (if self.known(name@) {
                Ok::<i64, ThrottleError>(self.semaphores@[self.rank(name@)].granted)
            } else {
                Err(ThrottleError::UnknownSemaphore)
            }),
    {
        match self.index_of(name) {
            Some(s) => Ok(self.semaphores[s].granted),
            None => Err(ThrottleError::UnknownSemaphore),
        }
    }

    /// Whether `amount` more fits under the maximum at rank `s`.
    pub open spec fn fits(&self, s: int, amount: u32) -> bool {
        self.granted_at(s) + amount <= self.max_at(s)
    }

    /// Grants `amount` more at rank `s` if and only if it fits.
    pub fn try_reserve_at(&mut self, s: usize, amount: u32) -> (reserved: bool)
        requires
            old(self).wf(),
            s < old(self).len(),
        ensures
            final(self).wf(),
            reserved == old(self).fits(s as int, amount),
            !reserved ==> *final(self) == *old(self),
            reserved ==> final(self).same_but_granted(old(self), s as int) && final(self).granted_at(
                s as int,
            ) == old(self).granted_at(s as int) + amount,
    {
        let granted = self.semaphores[s].granted;
        let max = self.semaphores[s].max;
        if amount as i64 <= max - granted {
            self.semaphores[s].granted = granted + amount as i64;
            true
        } else {
            false
        }
    }

    /// Gives `amount` back at rank `s`; the caller has reserved it before.
    pub fn release_at(&mut self, s: usize, amount: u32)
        requires
            old(self).wf(),
            s < old(self).len(),
            amount <= old(self).granted_at(s as int),
        ensures
            final(self).wf(),
            final(self).same_but_granted(old(self), s as int),
            final(self).granted_at(s as int) == old(self).granted_at(s as int) - amount,
    {
        let granted = self.semaphores[s].granted;
        self.semaphores[s].granted = granted - amount as i64;
    }

    /// Grants `amount` more of the named semaphore if and only if it is
    /// configured and the amount fits; says whether it did.
    pub fn try_reserve(&mut self, name: &str, amount: u32) -> (reserved: bool)
        requires
            old(self).wf(),
        ensures
            final(self).wf(),
            reserved == (old(self).known(name@) && old(self).fits(old(self).rank(name@), amount)),
            !reserved ==> *final(self) == *old(self),
            reserved ==> final(self).same_but_granted(old(self), old(self).rank(name@))
                && final(self).granted_at(old(self).rank(name@)) == old(self).granted_at(
                old(self).rank(name@),
            ) + amount,
    {
        match self.index_of(name) {
            Some(s) => self.try_reserve_at(s, amount),
            None => false,
        }
    }

    /// Gives `amount` of the named semaphore back. The caller has reserved it
    /// before; an unknown name changes nothing.
    pub fn release(&mut self, name: &str, amount: u32)
        requires
            old(self).wf(),
            old(self).known(name@) ==> amount <= old(self).granted_at(old(self).rank(name@)),
        ensures
            final(self).wf(),
            !old(self).known(name@) ==> *final(self) == *old(self),
            old(self).known(name@) ==> final(self).same_but_granted(old(self), old(self).rank(name@))
                && final(self).granted_at(old(self).rank(name@)) == old(self).granted_at(
                old(self).rank(name@),
            ) - amount,
    {
        match self.index_of(name) {
            Some(s) => self.release_at(s, amount),
            None => {},
        }
    }
}

} // verus!
