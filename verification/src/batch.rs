//! The batch system's bookkeeping: which application runs next.
use vstd::prelude::*;

verus! {

/// The number of applications and the one to run next.
pub struct AppManager {
    num_app: usize,
    current_app: usize,
}

impl AppManager {
    /// The number of applications.
    pub closed spec fn app_count(&self) -> nat {
        self.num_app as nat
    }

    /// The application to run next.
    pub closed spec fn current(&self) -> nat {
        self.current_app as nat
    }

    /// A manager of `num_app` applications, starting with the first.
    pub fn new(num_app: usize) -> (m: AppManager)
        ensures
            m.app_count() == num_app,
            m.current() == 0,
    {
        AppManager { num_app, current_app: 0 }
    }

    /// The application to run next.
    pub fn get_current_app(&self) -> (id: usize)
        ensures
            id == self.current(),
    {
        self.current_app
    }

    /// Moves on to the next application; returns whether that goes past the
    /// last one, all applications having completed.
    pub fn move_to_next_app(&mut self) -> (completed: bool)
        requires
            old(self).current() < usize::MAX,
        ensures
            final(self).current() == old(self).current() + 1,
            final(self).app_count() == old(self).app_count(),
            completed == (final(self).current() > final(self).app_count()),
    {
        self.current_app = self.current_app + 1;
        self.current_app > self.num_app
    }
}

} // verus!
