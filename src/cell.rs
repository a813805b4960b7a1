//! A single-slot cell whose borrow state is tracked at run time, and the
//! laws of its acquire and release operations.

use vstd::prelude::*;

use crate::errors::HedelError;

verus! {

/// The runtime borrow state of a [`HedelCell`].
#[derive(Debug, Clone, Copy, PartialEq, Eq, Structural)]
pub enum BorrowFlag {
    /// An exclusive guard is outstanding.
    Exclusive,
    /// This many shared guards are outstanding (at least one).
    Shared(usize),
    /// No guard is outstanding.
    Unused,
}

/// The flag after one more shared acquisition, or the error it meets.
/// The counter saturates at `usize::MAX`.
pub open spec fn acquire_shared(f: BorrowFlag) -> Result<BorrowFlag, HedelError> {
    match f {
        BorrowFlag::Unused => Ok(BorrowFlag::Shared(1)),
        BorrowFlag::Shared(n) => Ok(
            BorrowFlag::Shared(if n < usize::MAX { (n + 1) as usize } else { n }),
        ),
        BorrowFlag::Exclusive => Err(HedelError::ExclusiveActiveConflict),
    }
}

/// The flag after an exclusive acquisition, or the error it meets.
pub open spec fn acquire_exclusive(f: BorrowFlag) -> Result<BorrowFlag, HedelError> {
    match f {
        BorrowFlag::Unused => Ok(BorrowFlag::Exclusive),
        _ => Err(HedelError::BorrowActiveConflict),
    }
}

/// The flag after one shared guard is released: the counter goes down, and
/// the last release leaves no guard at all.
pub open spec fn release_shared(f: BorrowFlag) -> BorrowFlag {
    match f {
        BorrowFlag::Shared(n) => if n > 1 {
            BorrowFlag::Shared((n - 1) as usize)
        } else {
            BorrowFlag::Unused
        },
        _ => f,
    }
}

/// A flag that the cell can hold: a shared counter is never zero.
pub open spec fn flag_valid(f: BorrowFlag) -> bool {
    match f {
        BorrowFlag::Shared(n) => n >= 1,
        _ => true,
    }
}

/// A single-slot container whose borrow state is tracked at run time.
///
/// At any time either one exclusive guard or any number of shared guards is
/// outstanding, never both. The cell is meant for a single thread.
#[derive(Debug)]
pub struct HedelCell<T> {
    flag: BorrowFlag,
    value: T,
}

/// Proof that a shared borrow of a [`HedelCell`] was granted.
/// Hand it back with [`RefHedel::release`].
#[derive(Debug)]
pub struct RefHedel {
    granted: (),
}

/// Proof that the exclusive borrow of a [`HedelCell`] was granted.
/// Hand it back with [`RefMutHedel::release`].
#[derive(Debug)]
pub struct RefMutHedel {
    granted: (),
}

impl<T> HedelCell<T> {
    pub closed spec fn spec_flag(&self) -> BorrowFlag {
        self.flag
    }

    pub closed spec fn spec_value(&self) -> T {
        self.value
    }

    /// The cell's invariant.
    pub open spec fn wf(&self) -> bool {
        flag_valid(self.spec_flag())
    }

    /// A cell holding `value`, with no guard outstanding.
    pub fn new(value: T) -> (r: Self)
        ensures
            r.spec_flag() == BorrowFlag::Unused,
            r.spec_value() == value,
    {
        HedelCell { flag: BorrowFlag::Unused, value }
    }

    /// The current borrow state.
    pub fn flag(&self) -> (r: BorrowFlag)
        ensures
            r == self.spec_flag(),
    {
        self.flag
    }

    /// Takes a shared borrow: succeeds unless an exclusive guard is
    /// outstanding, and then counts one more shared guard.
    pub fn try_get(&mut self) -> (r: Result<RefHedel, HedelError>)
        ensures
            final(self).spec_value() == old(self).spec_value(),
            match acquire_shared(old(self).spec_flag()) {
                Ok(f) => r is Ok && final(self).spec_flag() == f,
                Err(e) => r == Err::<RefHedel, HedelError>(e) && final(self).spec_flag()
                    == old(self).spec_flag(),
            },
    {
        match self.flag {
            BorrowFlag::Unused => {
                self.flag = BorrowFlag::Shared(1);
            },
            BorrowFlag::Shared(n) => {
                self.flag = BorrowFlag::Shared(n.saturating_add(1));
            },
            BorrowFlag::Exclusive => {
                return Err(HedelError::ExclusiveActiveConflict);
            },
        }
        Ok(RefHedel { granted: () })
    }

    /// Takes a shared borrow where no exclusive guard can be outstanding.
    pub fn get(&mut self) -> (r: RefHedel)
        requires
            !(old(self).spec_flag() is Exclusive),
        ensures
            final(self).spec_value() == old(self).spec_value(),
            Ok::<BorrowFlag, HedelError>(final(self).spec_flag()) == acquire_shared(
                old(self).spec_flag(),
            ),
    {
        match self.try_get() {
            Ok(g) => g,
            Err(_) => {
                proof {
                    assert(false);
                }
                RefHedel { granted: () }
            },
        }
    }

    /// Takes the exclusive borrow: succeeds only when no guard at all is
    /// outstanding.
    pub fn try_get_mut(&mut self) -> (r: Result<RefMutHedel, HedelError>)
        ensures
            final(self).spec_value() == old(self).spec_value(),
            match acquire_exclusive(old(self).spec_flag()) {
                Ok(f) => r is Ok && final(self).spec_flag() == f,
                Err(e) => r == Err::<RefMutHedel, HedelError>(e) && final(self).spec_flag()
                    == old(self).spec_flag(),
            },
    {
        if let BorrowFlag::Unused = self.flag {
            self.flag = BorrowFlag::Exclusive;
            return Ok(RefMutHedel { granted: () });
        }
        Err(HedelError::BorrowActiveConflict)
    }

    /// Takes the exclusive borrow where no guard can be outstanding.
    pub fn get_mut(&mut self) -> (r: RefMutHedel)
        requires
            old(self).spec_flag() == BorrowFlag::Unused,
        ensures
            final(self).spec_value() == old(self).spec_value(),
            final(self).spec_flag() == BorrowFlag::Exclusive,
    {
        match self.try_get_mut() {
            Ok(g) => g,
            Err(_) => {
                proof {
                    assert(false);
                }
                RefMutHedel { granted: () }
            },
        }
    }

    /// Reads the value under a shared guard.
    pub fn read(&self, guard: &RefHedel) -> (r: &T)
        requires
            self.spec_flag() is Shared,
        ensures
            *r == self.spec_value(),
    {
        &self.value
    }

    /// Reads the value where no exclusive guard is outstanding: the caller's
    /// own shared borrow of the cell is what rules a writer out.
    pub fn peek(&self) -> (r: &T)
        requires
            !(self.spec_flag() is Exclusive),
        ensures
            *r == self.spec_value(),
    {
        &self.value
    }

    /// Mutable access to the value under the exclusive guard.
    pub fn value_mut(&mut self, guard: &RefMutHedel) -> (r: &mut T)
        requires
            old(self).spec_flag() is Exclusive,
        ensures
            *r == old(self).spec_value(),
            final(self).spec_value() == *final(r),
            final(self).spec_flag() == old(self).spec_flag(),
    {
        &mut self.value
    }

    /// Consumes the cell and returns its value.
    pub fn into_inner(self) -> (r: T)
        ensures
            r == self.spec_value(),
    {
        self.value
    }
}

impl RefHedel {
    /// Gives a shared borrow back: the counter goes down, and the last
    /// release leaves the cell with no guard.
    pub fn release<T>(self, cell: &mut HedelCell<T>)
        requires
            old(cell).spec_flag() is Shared,
        ensures
            final(cell).spec_value() == old(cell).spec_value(),
            final(cell).spec_flag() == release_shared(old(cell).spec_flag()),
    {
        if let BorrowFlag::Shared(n) = cell.flag {
            if n > 1 {
                cell.flag = BorrowFlag::Shared(n - 1);
            } else {
                cell.flag = BorrowFlag::Unused;
            }
        }
    }
}

impl RefMutHedel {
    /// Gives the exclusive borrow back: the cell is left with no guard.
    pub fn release<T>(self, cell: &mut HedelCell<T>)
        requires
            old(cell).spec_flag() is Exclusive,
        ensures
            final(cell).spec_value() == old(cell).spec_value(),
            final(cell).spec_flag() == BorrowFlag::Unused,
    {
        cell.flag = BorrowFlag::Unused;
    }
}

/// While a shared guard is outstanding, a second shared acquisition succeeds
/// and counts one more guard, and an exclusive acquisition fails; while the
/// exclusive guard is outstanding, a shared acquisition fails.
pub proof fn lemma_shared_guards_coexist(f: BorrowFlag, g: BorrowFlag)
    requires
        flag_valid(f),
        acquire_shared(f) == Ok::<BorrowFlag, HedelError>(g),
    ensures
        g is Shared,
        g->Shared_0 < usize::MAX ==> acquire_shared(g) == Ok::<BorrowFlag, HedelError>(
            BorrowFlag::Shared((g->Shared_0 + 1) as usize),
        ),
        acquire_exclusive(g) == Err::<BorrowFlag, HedelError>(HedelError::BorrowActiveConflict),
{
}

/// While the exclusive guard is outstanding, neither kind of guard is granted.
pub proof fn lemma_exclusive_guard_is_alone(f: BorrowFlag, g: BorrowFlag)
    requires
        acquire_exclusive(f) == Ok::<BorrowFlag, HedelError>(g),
    ensures
        acquire_shared(g) == Err::<BorrowFlag, HedelError>(HedelError::ExclusiveActiveConflict),
        acquire_exclusive(g) == Err::<BorrowFlag, HedelError>(HedelError::BorrowActiveConflict),
{
}

/// Releasing the last outstanding shared guard leaves no guard; a shared
/// acquisition followed by its release restores the flag (short of a
/// saturated counter); releasing the exclusive guard always leaves no guard.
pub proof fn lemma_release_restores(f: BorrowFlag, g: BorrowFlag)
    requires
        flag_valid(f),
        acquire_shared(f) == Ok::<BorrowFlag, HedelError>(g),
    ensures
        release_shared(BorrowFlag::Shared(1)) == BorrowFlag::Unused,
        !(f is Shared && f->Shared_0 == usize::MAX) ==> release_shared(g) == f,
        acquire_exclusive(BorrowFlag::Unused) == Ok::<BorrowFlag, HedelError>(BorrowFlag::Exclusive),
{
}

} // verus!
