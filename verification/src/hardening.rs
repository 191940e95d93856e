//! The hardening of a process, decided before any secret exists.

use crate::wire::bytes_eq;
use vstd::prelude::*;

verus! {

/// Which part a process plays.
#[derive(Clone, Copy, Debug, PartialEq, Eq, Structural)]
pub enum Role {
    /// The process with the window.
    Gui,
    /// The process that does the cryptography.
    Worker,
}

/// The limit of locked memory from which on the worker locks all of its memory.
pub const MEMLOCK_NEEDED: u64 = 335544320;

/// The argument that makes a process a worker: `--worker`.
pub const WORKER_ARG: [u8; 8] = [45, 45, 119, 111, 114, 107, 101, 114];

/// What a process does to harden itself.
#[derive(Clone, Copy, Debug, PartialEq, Eq, Structural)]
pub struct HardenPlan {
    /// The limit for the size of core dumps.
    pub core_limit: u64,
    /// The mask for the permissions of new files.
    pub umask: u32,
    /// Whether debuggers are kept out.
    pub deny_debugger: bool,
    /// Whether all memory, present and future, is locked.
    pub lock_all: bool,
}

/// The soft limit of locked memory to ask for, given the soft and the hard limit: the hard one,
/// where that is higher.
pub fn memlock_to_request(limits: Option<(u64, u64)>) -> (r: Option<u64>)
    ensures
        r == (match limits {
            Some((soft, hard)) => if soft < hard {
                Some(hard)
            } else {
                None
            },
            None => None,
        }),
{
    match limits {
        Some((soft, hard)) => {
            if soft < hard {
                Some(hard)
            } else {
                None
            }
        },
        None => None,
    }
}

/// The soft limit of locked memory that is in force, given the soft and the hard limit as they are
/// after it was tried to raise the soft one. Where they are unknown nothing can be locked.
pub open spec fn limit_in_force(limits: Option<(u64, u64)>) -> u64 {
    match limits {
        Some((soft, _)) => soft,
        None => 0,
    }
}

/// Tells the soft limit of locked memory that is in force.
pub fn memlock_in_force(limits: Option<(u64, u64)>) -> (limit: u64)
    ensures
        limit == limit_in_force(limits),
        limits matches Some((soft, _)) ==> limit == soft,
        limits is None ==> limit == 0,
{
    match limits {
        Some((soft, _)) => soft,
        None => 0,
    }
}

/// The role of a process with these arguments.
pub open spec fn role_of(args: Seq<Seq<u8>>) -> Role {
    if args.contains(WORKER_ARG@) {
        Role::Worker
    } else {
        Role::Gui
    }
}

/// A process is a worker exactly where one of its arguments is `--worker`.
pub proof fn law_worker_has_its_argument(args: Seq<Seq<u8>>)
    ensures
        role_of(args) == Role::Worker <==> exists|i: int|
            0 <= i < args.len() && #[trigger] args[i] == seq![
                45u8, 45u8, 119u8, 111u8, 114u8, 107u8, 101u8, 114u8,
            ],
        role_of(args) == Role::Gui || role_of(args) == Role::Worker,
{
    assert(WORKER_ARG@ =~= seq![45u8, 45u8, 119u8, 111u8, 114u8, 107u8, 101u8, 114u8]);
}

/// Tells the role of a process from its arguments.
pub fn process_role(args: &Vec<Vec<u8>>) -> (r: Role)
    ensures
        r == role_of(Seq::new(args@.len(), |i: int| args@[i]@)),
{
    let ghost views = Seq::new(args@.len(), |i: int| args@[i]@);
    let worker: [u8; 8] = WORKER_ARG;
    let mut i: usize = 0;
    while i < args.len()
        invariant
            i <= args@.len(),
            worker@ == WORKER_ARG@,
            views == Seq::new(args@.len(), |i: int| args@[i]@),
            forall|j: int| 0 <= j < i ==> #[trigger] views[j] != WORKER_ARG@,
        decreases args@.len() - i,
    {
        if bytes_eq(args[i].as_slice(), worker.as_slice()) {
            assert(views[i as int] == WORKER_ARG@);
            return Role::Worker;
        }
        i = i + 1;
    }
    Role::Gui
}

/// Plans the hardening of a process. `memlock` holds its soft and hard limit of locked memory as
/// they are after it was tried to raise the soft one, if they are known, and `unlimited` is the
/// value that stands for no limit. Every process forgoes core dumps, keeps new files to itself and
/// debuggers out. Only the worker locks all of its memory, and only where the limit in force leaves
/// room for what it needs.
pub fn harden_process(role: Role, memlock: Option<(u64, u64)>, unlimited: u64) -> (plan: HardenPlan)
    ensures
        plan.core_limit == 0,
        plan.umask == 63,
        plan.deny_debugger,
        plan.lock_all <==> role == Role::Worker && (limit_in_force(memlock) == unlimited
            || limit_in_force(memlock) >= MEMLOCK_NEEDED),
        plan.lock_all <==> role == Role::Worker && match memlock {
            Some((soft, _)) => soft == unlimited || soft >= 335544320,
            None => unlimited == 0,
        },
{
    let limit: u64 = memlock_in_force(memlock);
    HardenPlan {
        core_limit: 0,
        umask: 63,
        deny_debugger: true,
        lock_all: role == Role::Worker && (limit == unlimited || limit >= MEMLOCK_NEEDED),
    }
}

} // verus!
