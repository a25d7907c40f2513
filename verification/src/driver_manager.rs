//! The state that decides what may be asked of the kernel driver: whether
//! one is loaded, how memory is accessed, and which process is bound.
//!
//! The manager performs no request itself. Its caller makes the requests
//! and tells the manager what came of them.

use crate::driver::check_process_name;
use crate::driver::spec_process_name_accepted;
use crate::error::ErrorKind;
use vstd::prelude::*;

verus! {

/// How the driver is told to access the target's memory.
#[derive(Clone, Copy, Debug, PartialEq, Eq, Structural)]
pub enum MemoryAccessMode {
    Direct,
    PageAware,
    Chunked,
}

impl MemoryAccessMode {
    /// The number that stands for the mode.
    pub open spec fn spec_id(self) -> i32 {
        match self {
            MemoryAccessMode::Direct => 0,
            MemoryAccessMode::PageAware => 1,
            MemoryAccessMode::Chunked => 2,
        }
    }

    /// The mode that a number stands for; `None` for any other number.
    pub open spec fn spec_from_id(id: i32) -> Option<MemoryAccessMode> {
        if id == 0 {
            Some(MemoryAccessMode::Direct)
        } else if id == 1 {
            Some(MemoryAccessMode::PageAware)
        } else if id == 2 {
            Some(MemoryAccessMode::Chunked)
        } else {
            None
        }
    }

    /// The number that stands for the mode.
    pub fn id(&self) -> (r: i32)
        ensures
            r == self.spec_id(),
            Self::spec_from_id(r) == Some(*self),
    {
        match self {
            MemoryAccessMode::Direct => 0,
            MemoryAccessMode::PageAware => 1,
            MemoryAccessMode::Chunked => 2,
        }
    }

    /// The mode that `id` stands for.
    pub fn from_id(id: i32) -> (r: Option<MemoryAccessMode>)
        ensures
            r == Self::spec_from_id(id),
    {
        if id == 0 {
            Some(MemoryAccessMode::Direct)
        } else if id == 1 {
            Some(MemoryAccessMode::PageAware)
        } else if id == 2 {
            Some(MemoryAccessMode::Chunked)
        } else {
            None
        }
    }
}

/// What the manager knows.
#[derive(Clone, Copy, Debug, PartialEq, Eq, Structural)]
pub struct DriverManager {
    /// Descriptor of the loaded driver.
    pub driver: Option<i32>,
    /// Mode of access that was set last.
    pub mode: MemoryAccessMode,
    /// The bound process; 0 where none is bound.
    pub bound_pid: i32,
    /// What the driver handed out for the binding.
    pub bind_handle: Option<i32>,
    /// An earlier failure left the manager unusable.
    pub poisoned: bool,
}

impl DriverManager {
    /// A process is bound exactly where a handle for it is held.
    pub open spec fn spec_consistent(self) -> bool {
        (self.bound_pid != 0) == (self.bind_handle is Some)
    }

    /// A manager without driver and without bound process, in direct mode.
    pub fn new() -> (r: Self)
        ensures
            r == (DriverManager {
                driver: None,
                mode: MemoryAccessMode::Direct,
                bound_pid: 0,
                bind_handle: None,
                poisoned: false,
            }),
            r.spec_consistent(),
    {
        DriverManager {
            driver: None,
            mode: MemoryAccessMode::Direct,
            bound_pid: 0,
            bind_handle: None,
            poisoned: false,
        }
    }

    /// Marks the manager as unusable. Nothing undoes this.
    pub fn poison(&mut self)
        ensures
            *final(self) == (DriverManager { poisoned: true, ..*old(self) }),
    {
        self.poisoned = true;
    }

    /// Whether the manager was marked as unusable.
    pub fn is_poisoned(&self) -> (r: bool)
        ensures
            r == self.poisoned,
    {
        self.poisoned
    }

    /// Whether a driver is loaded.
    pub fn is_driver_loaded(&self) -> (r: bool)
        ensures
            r == (self.driver is Some),
    {
        self.driver.is_some()
    }

    /// Takes the driver behind `fd` into use, unless one is loaded already,
    /// and then checks the name that the loaded driver reports for this
    /// program's own process. `own_process_name` is asked for that name
    /// with the loaded driver's descriptor.
    ///
    /// Fails with `Poisoned` on a poisoned manager, which is left as it is;
    /// with `IoFailure` where no name could be had; with `InvalidArgument`
    /// where the name does not pass the check. In the last two cases the
    /// driver stays loaded.
    pub fn set_driver<N>(&mut self, fd: i32, own_process_name: N) -> (r: Result<(), ErrorKind>) where
        N: Fn(i32) -> Option<Vec<u8>>,

        requires
            forall|descriptor: i32| call_requires(own_process_name, (descriptor,)),
        ensures
            old(self).poisoned ==> r == Err::<(), ErrorKind>(ErrorKind::Poisoned) && *final(self)
                == *old(self),
            !old(self).poisoned ==> {
                &&& *final(self) == (DriverManager {
                    driver: Some(
                        match old(self).driver {
                            Some(loaded) => loaded,
                            None => fd,
                        },
                    ),
                    ..*old(self)
                })
                &&& exists|name: Option<Vec<u8>>|
                    call_ensures(own_process_name, (final(self).driver.unwrap(),), name)
                        && r == spec_self_check(name)
            },
    {
        if self.poisoned {
            return Err(ErrorKind::Poisoned);
        }
        let loaded = match self.driver {
            Some(loaded) => loaded,
            None => {
                self.driver = Some(fd);
                fd
            },
        };
        let name = own_process_name(loaded);
        self_check(name)
    }

    /// Records the mode of access.
    pub fn set_access_mode(&mut self, mode: MemoryAccessMode) -> (r: Result<(), ErrorKind>)
        ensures
            old(self).poisoned ==> r == Err::<(), ErrorKind>(ErrorKind::Poisoned) && *final(self)
                == *old(self),
            !old(self).poisoned ==> r == Ok::<(), ErrorKind>(()) && *final(self) == (DriverManager {
                mode,
                ..*old(self)
            }),
    {
        if self.poisoned {
            return Err(ErrorKind::Poisoned);
        }
        self.mode = mode;
        Ok(())
    }

    /// Records that `pid` is bound, with the handle that the driver gave
    /// for it. On success the handle of the binding that this one replaces
    /// is returned, for the caller to release.
    ///
    /// Fails, and changes nothing, with `Poisoned` on a poisoned manager,
    /// with `NotInitialised` where no driver is loaded, and with
    /// `InvalidArgument` for a `pid` that is not positive.
    pub fn bind_process(&mut self, handle: i32, pid: i32) -> (r: Result<Option<i32>, ErrorKind>)
        ensures
            r == if old(self).poisoned {
                Err::<Option<i32>, ErrorKind>(ErrorKind::Poisoned)
            } else if old(self).driver is None {
                Err(ErrorKind::NotInitialised)
            } else if pid <= 0 {
                Err(ErrorKind::InvalidArgument)
            } else {
                Ok(old(self).bind_handle)
            },
            r is Err ==> *final(self) == *old(self),
            r is Ok ==> *final(self) == (DriverManager {
                bound_pid: pid,
                bind_handle: Some(handle),
                ..*old(self)
            }),
            r is Ok ==> final(self).spec_consistent(),
    {
        if self.poisoned {
            return Err(ErrorKind::Poisoned);
        }
        if self.driver.is_none() {
            return Err(ErrorKind::NotInitialised);
        }
        if pid <= 0 {
            return Err(ErrorKind::InvalidArgument);
        }
        let previous = self.bind_handle;
        self.bound_pid = pid;
        self.bind_handle = Some(handle);
        Ok(previous)
    }

    /// Records that no process is bound. The handle of the binding that
    /// ends is returned, for the caller to release.
    pub fn unbind_process(&mut self) -> (r: Option<i32>)
        ensures
            r == old(self).bind_handle,
            *final(self) == (DriverManager { bound_pid: 0, bind_handle: None, ..*old(self) }),
            final(self).spec_consistent(),
    {
        let previous = self.bind_handle;
        self.bound_pid = 0;
        self.bind_handle = None;
        previous
    }

    /// Whether a process is bound.
    pub fn is_process_bound(&self) -> (r: bool)
        ensures
            r == (self.bound_pid != 0),
    {
        self.bound_pid != 0
    }

    /// The bound process; 0 where none is bound.
    pub fn get_bound_pid(&self) -> (r: i32)
        ensures
            r == self.bound_pid,
    {
        self.bound_pid
    }

    /// What a read or write of the bound process needs before it is passed
    /// to the driver: a manager that is usable, a loaded driver, a bound
    /// process and a length that is not zero. On success the descriptor,
    /// the process and the mode to use are returned.
    pub fn check_access(&self, length: usize) -> (r: Result<(i32, i32, MemoryAccessMode), ErrorKind>)
        ensures
            r == if self.poisoned {
                Err::<(i32, i32, MemoryAccessMode), ErrorKind>(ErrorKind::Poisoned)
            } else if self.driver is None || self.bound_pid == 0 {
                Err(ErrorKind::NotInitialised)
            } else if length == 0 {
                Err(ErrorKind::InvalidArgument)
            } else {
                Ok((self.driver.unwrap(), self.bound_pid, self.mode))
            },
    {
        if self.poisoned {
            return Err(ErrorKind::Poisoned);
        }
        match self.driver {
            Some(fd) => {
                if self.bound_pid == 0 {
                    Err(ErrorKind::NotInitialised)
                } else if length == 0 {
                    Err(ErrorKind::InvalidArgument)
                } else {
                    Ok((fd, self.bound_pid, self.mode))
                }
            },
            None => Err(ErrorKind::NotInitialised),
        }
    }

    /// As [`Self::check_access`], for a length that arrives as a signed
    /// number: one that is not positive is an `InvalidArgument`, whatever
    /// the state of the manager. On success the length is returned too.
    pub fn check_read(&self, size: i32) -> (r: Result<(i32, i32, MemoryAccessMode, usize), ErrorKind>)
        ensures
            r == if size <= 0 {
                Err::<(i32, i32, MemoryAccessMode, usize), ErrorKind>(ErrorKind::InvalidArgument)
            } else if self.poisoned {
                Err(ErrorKind::Poisoned)
            } else if self.driver is None || self.bound_pid == 0 {
                Err(ErrorKind::NotInitialised)
            } else {
                Ok((self.driver.unwrap(), self.bound_pid, self.mode, size as usize))
            },
    {
        if size <= 0 {
            return Err(ErrorKind::InvalidArgument);
        }
        match self.check_access(size as usize) {
            Ok((fd, pid, mode)) => Ok((fd, pid, mode, size as usize)),
            Err(e) => Err(e),
        }
    }
}

/// The outcome of the self-check for the name that was had, if any.
pub open spec fn spec_self_check(name: Option<Vec<u8>>) -> Result<(), ErrorKind> {
    match name {
        None => Err(ErrorKind::IoFailure),
        Some(bytes) => if spec_process_name_accepted(bytes@) {
            Ok(())
        } else {
            Err(ErrorKind::InvalidArgument)
        },
    }
}

/// Decides the self-check: `IoFailure` where no name could be had,
/// `InvalidArgument` where the name does not pass.
pub fn self_check(name: Option<Vec<u8>>) -> (r: Result<(), ErrorKind>)
    ensures
        r == spec_self_check(name),
{
    match name {
        None => Err(ErrorKind::IoFailure),
        Some(bytes) => {
            if check_process_name(bytes.as_slice()) {
                Ok(())
            } else {
                Err(ErrorKind::InvalidArgument)
            }
        },
    }
}

} // verus!
