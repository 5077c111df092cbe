use vstd::prelude::*;

verus! {

/// Process-group bookkeeping for children spawned on a Unix host. The caller
/// performs the actual `getpgid`/`kill` calls and hands their results in;
/// this state decides what to record and what to signal.
pub struct UnixLocalExecRuntime {
    pub pgid: Option<i32>,
}

impl UnixLocalExecRuntime {
    /// Fresh state: no child recorded.
    pub fn new() -> (r: Self)
        ensures
            r.pgid is None,
    {
        UnixLocalExecRuntime { pgid: None }
    }

    /// Record a spawned child: `pgid_lookup` is what the process-group query
    /// returned for the child's pid; a nonpositive answer falls back to the
    /// pid itself.
    pub fn record_child(&mut self, pid: u32, pgid_lookup: i32)
        ensures
            final(self).pgid == Some(
                if pgid_lookup > 0 {
                    pgid_lookup
                } else {
                    pid as i32
                },
            ),
    {
        let value = if pgid_lookup > 0 {
            pgid_lookup
        } else {
            #[verifier::truncate] (pid as i32)
        };
        self.pgid = Some(value);
    }

    /// Forget any recorded child.
    pub fn clear(&mut self)
        ensures
            final(self).pgid is None,
    {
        self.pgid = None;
    }

    /// Take the recorded process group to signal, clearing it: each recorded
    /// child is interrupted at most once.
    pub fn interrupt(&mut self) -> (r: Option<i32>)
        ensures
            r == old(self).pgid,
            final(self).pgid is None,
    {
        let r = self.pgid;
        self.pgid = None;
        r
    }
}

/// The no-op variant for hosts without process groups: nothing is recorded
/// and nothing is ever signalled.
pub struct WindowsLocalExecRuntime {
}

impl WindowsLocalExecRuntime {
    pub fn new() -> (r: Self) {
        WindowsLocalExecRuntime {  }
    }

    pub fn record_child(&mut self, pid: u32, pgid_lookup: i32)
        ensures
            *final(self) == *old(self),
    {
    }

    pub fn clear(&mut self)
        ensures
            *final(self) == *old(self),
    {
    }

    /// Never yields a target to signal.
    pub fn interrupt(&mut self) -> (r: Option<i32>)
        ensures
            r is None,
            *final(self) == *old(self),
    {
        None
    }
}

} // verus!
