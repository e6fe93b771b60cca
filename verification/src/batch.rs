//! The batch system: applications placed one after another in the kernel image, run
//! in turn at one fixed address.
use vstd::prelude::*;
use crate::sbi::{SbiCall, shutdown};

verus! {

/// The most applications the kernel image holds.
pub const MAX_APP_NUM: usize = 16;
/// Where an application is loaded and started.
pub const APP_BASE_ADDRESS: usize = 0x80400000;
/// The room an application has at its load address.
pub const APP_SIZE_LIMIT: usize = 0x20000;

/// The applications of the kernel image and which of them runs next.
pub struct AppManager {
    /// How many applications there are.
    pub num_app: usize,
    /// The application that runs next.
    pub current_app: usize,
    /// Where each application starts in the image; entry `num_app` is where the last ends.
    pub app_start: [usize; 17],
}

/// What loading an application means.
#[derive(Clone, Copy, Debug, PartialEq, Eq, Structural)]
pub enum LoadStep {
    /// Every application has run: shut the system down with this call.
    Shutdown(SbiCall),
    /// Clear `APP_SIZE_LIMIT` bytes at `APP_BASE_ADDRESS`, then copy `len` bytes from
    /// image address `src` there.
    Copy { src: usize, len: usize },
}

impl AppManager {
    /// Whether there are at most `MAX_APP_NUM` applications, each ending where the next
    /// starts, at or after its own start.
    pub open spec fn wf(&self) -> bool {
        &&& self.num_app <= MAX_APP_NUM
        &&& forall|i: int| 0 <= i < self.num_app ==> #[trigger] self.app_start@[i] <= self.app_start@[i + 1]
    }

    /// The manager of the `num_app` applications whose bounds `bounds` lists, first
    /// start first and last end last; the first application runs next.
    pub fn new(num_app: usize, bounds: &Vec<usize>) -> (r: AppManager)
        requires
            num_app <= MAX_APP_NUM,
            bounds@.len() == num_app + 1,
        ensures
            r.num_app == num_app,
            r.current_app == 0,
            forall|i: int| 0 <= i <= num_app ==> #[trigger] r.app_start@[i] == bounds@[i],
            forall|i: int| num_app < i <= MAX_APP_NUM ==> #[trigger] r.app_start@[i] == 0,
    {
        let mut app_start = [0usize; 17];
        let mut i: usize = 0;
        while i <= num_app
            invariant
                num_app <= MAX_APP_NUM,
                bounds@.len() == num_app + 1,
                0 <= i <= num_app + 1,
                app_start@.len() == 17,
                forall|j: int| 0 <= j < i ==> #[trigger] app_start@[j] == bounds@[j],
                forall|j: int| i <= j < 17 ==> #[trigger] app_start@[j] == 0,
            decreases num_app + 1 - i,
        {
            app_start[i] = bounds[i];
            i = i + 1;
        }
        AppManager { num_app, current_app: 0, app_start }
    }

    /// The address range `[start, end)` of each application, in order, as the kernel
    /// reports them.
    pub fn print_app_info(&self) -> (r: Vec<(usize, usize)>)
        requires
            self.num_app <= MAX_APP_NUM,
        ensures
            r@.len() == self.num_app,
            forall|i: int| 0 <= i < self.num_app ==> #[trigger] r@[i] == (self.app_start@[i], self.app_start@[i + 1]),
    {
        let mut v: Vec<(usize, usize)> = Vec::new();
        let mut i: usize = 0;
        while i < self.num_app
            invariant
                self.num_app <= MAX_APP_NUM,
                0 <= i <= self.num_app,
                v@.len() == i,
                forall|j: int| 0 <= j < i ==> #[trigger] v@[j] == (self.app_start@[j], self.app_start@[j + 1]),
            decreases self.num_app - i,
        {
            v.push((self.app_start[i], self.app_start[i + 1]));
            i = i + 1;
        }
        v
    }

    /// What loading application `app_id` means: shutting down when there is no such
    /// application, else copying its bytes to the load address.
    pub fn load_app(&self, app_id: usize) -> (r: LoadStep)
        requires
            self.wf(),
        ensures
            app_id >= self.num_app ==> r == LoadStep::Shutdown(
                SbiCall { extension: crate::sbi::SBI_EXT_SRST, function: crate::sbi::SBI_SRST_RESET, arg0: 0, arg1: 0, arg2: 0 },
            ),
            app_id < self.num_app ==> r == (LoadStep::Copy {
                src: self.app_start@[app_id as int],
                len: (self.app_start@[app_id + 1] - self.app_start@[app_id as int]) as usize,
            }),
    {
        if app_id >= self.num_app {
            return LoadStep::Shutdown(shutdown());
        }
        let src = self.app_start[app_id];
        let end = self.app_start[app_id + 1];
        LoadStep::Copy { src, len: end - src }
    }

    /// The application that runs next.
    pub fn get_current_app(&self) -> (r: usize)
        ensures
            r == self.current_app,
    {
        self.current_app
    }

    /// Move on to the next application.
    pub fn move_to_next_app(&mut self)
        requires
            old(self).current_app < usize::MAX,
        ensures
            *final(self) == (AppManager { current_app: (old(self).current_app + 1) as usize, ..*old(self) }),
    {
        self.current_app = self.current_app + 1;
    }
}

} // verus!
