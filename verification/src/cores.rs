//! Which core each of a number of threads is pinned to.
use vstd::prelude::*;

use crate::machine::{available_cores, Listed};

verus! {

/// The cores there are to assign: those that are known, or none.
pub open spec fn known_cores(core_ids: Option<Vec<usize>>) -> Seq<usize> {
    match core_ids {
        Some(ids) => ids@,
        None => Seq::empty(),
    }
}

/// The core of a thread: the cores are handed out in turn, and again from the first.
pub open spec fn core_of(core_ids: Seq<usize>, thread: int) -> Option<usize> {
    if core_ids.len() == 0 {
        None
    } else {
        Some(core_ids[thread % (core_ids.len() as int)])
    }
}

/// The cores of `threads` threads.
pub open spec fn assignment(core_ids: Seq<usize>, threads: usize) -> Seq<Option<usize>> {
    Seq::new(threads as nat, |thread: int| core_of(core_ids, thread))
}

/// Assigns each of `number_of_threads` threads a core, if any are known. Threads beyond the number
/// of cores share them evenly.
pub fn assign_cores(core_ids: Option<Vec<usize>>, number_of_threads: usize) -> (assigned: Vec<
    Option<usize>,
>)
    ensures
        assigned@ == assignment(known_cores(core_ids), number_of_threads),
{
    let ghost known = known_cores(core_ids);
    let cores: Vec<usize> = match core_ids {
        Some(ids) => ids,
        None => Vec::new(),
    };
    let mut assigned: Vec<Option<usize>> = Vec::new();
    let mut next: usize = 0;
    let mut thread: usize = 0;
    while thread < number_of_threads
        invariant
            thread <= number_of_threads,
            cores@ == known,
            cores@.len() > 0 ==> next == thread as int % (cores@.len() as int) && next < cores@.len(),
            assigned@ == assignment(known, thread),
        decreases number_of_threads - thread,
    {
        let core: Option<usize> = if cores.len() == 0 {
            None
        } else {
            Some(cores[next])
        };
        assigned.push(core);
        if cores.len() > 0 {
            proof {
                lemma_next_in_turn(thread as int, cores@.len() as int);
            }
            next = if next + 1 < cores.len() {
                next + 1
            } else {
                0
            };
        }
        thread += 1;
        assert(assigned@ =~= assignment(known, thread));
    }
    assigned
}

/// The remainders of successive numbers count up and start again from zero.
proof fn lemma_next_in_turn(n: int, d: int)
    requires
        n >= 0,
        d > 0,
    ensures
        (n + 1) % d == (if n % d + 1 < d {
            n % d + 1
        } else {
            0
        }),
{
    vstd::arithmetic::div_mod::lemma_fundamental_div_mod(n, d);
    vstd::arithmetic::div_mod::lemma_mod_bound(n, d);
    let (q, r) = (n / d, n % d);
    if r + 1 < d {
        assert(n + 1 == q * d + (r + 1)) by (nonlinear_arith)
            requires
                n == d * q + r,
        ;
        vstd::arithmetic::div_mod::lemma_fundamental_div_mod_converse(n + 1, d, q, r + 1);
    } else {
        assert(n + 1 == (q + 1) * d + 0) by (nonlinear_arith)
            requires
                n == d * q + r,
                r + 1 == d,
        ;
        vstd::arithmetic::div_mod::lemma_fundamental_div_mod_converse(n + 1, d, q + 1, 0);
    }
}

/// Assigns each of `number_of_threads` threads one of the cores of this machine, if they are known,
/// and hands out the receipt for their listing. As far as there are enough cores, each thread has
/// one of its own.
pub fn core_assignments(number_of_threads: usize) -> (r: (Vec<Option<usize>>, Listed))
    ensures
        r.0@ == assignment(r.1.core_ids(), number_of_threads),
        forall|first: int, second: int|
            0 <= first < second < number_of_threads && second < first + r.1.core_ids().len()
                ==> #[trigger] r.0@[first] != #[trigger] r.0@[second],
{
    let (core_ids, listed) = available_cores();
    let assigned: Vec<Option<usize>> = assign_cores(core_ids, number_of_threads);
    proof {
        let cores = listed.core_ids();
        assert forall|first: int, second: int|
            0 <= first < second < number_of_threads && second < first
                + cores.len() implies #[trigger] assigned@[first] != #[trigger] assigned@[second] by {
            lemma_neighbors_do_not_share_a_core(cores, first, second);
        }
    }
    (assigned, listed)
}

/// Two threads whose numbers are less than the number of cores apart have different cores, where
/// the cores differ.
pub proof fn lemma_neighbors_do_not_share_a_core(core_ids: Seq<usize>, first: int, second: int)
    requires
        core_ids.no_duplicates(),
        0 <= first < second < first + core_ids.len(),
    ensures
        core_of(core_ids, first) != core_of(core_ids, second),
{
    let d = core_ids.len() as int;
    vstd::arithmetic::div_mod::lemma_fundamental_div_mod(first, d);
    vstd::arithmetic::div_mod::lemma_fundamental_div_mod(second, d);
    vstd::arithmetic::div_mod::lemma_mod_bound(first, d);
    vstd::arithmetic::div_mod::lemma_mod_bound(second, d);
    if first % d == second % d {
        assert(false) by (nonlinear_arith)
            requires
                first == d * (first / d) + first % d,
                second == d * (second / d) + second % d,
                first % d == second % d,
                first < second < first + d,
                d > 0,
        ;
    }
}

/// Each thread gets the core at its place in the listing, and beyond the end of the listing that of
/// the thread as many places before it as there are cores. Without cores no thread gets one.
pub proof fn lemma_cores_go_round(
    core_ids: Option<Vec<usize>>,
    number_of_threads: usize,
    assigned: Vec<Option<usize>>,
    thread: int,
)
    requires
        call_ensures(assign_cores, (core_ids, number_of_threads), assigned),
        0 <= thread < number_of_threads,
    ensures
        assigned@.len() == number_of_threads,
        core_ids is None ==> assigned@[thread] is None,
        core_ids matches Some(ids) ==> {
            &&& ids@.len() == 0 ==> assigned@[thread] is None
            &&& thread < ids@.len() ==> assigned@[thread] == Some(ids@[thread])
            &&& 0 < ids@.len() <= thread ==> assigned@[thread] == assigned@[thread - ids@.len()]
        },
{
    if core_ids is Some && core_ids->0@.len() > 0 {
        let d = core_ids->0@.len() as int;
        if thread < d {
            vstd::arithmetic::div_mod::lemma_small_mod(thread as nat, d as nat);
        } else {
            vstd::arithmetic::div_mod::lemma_mod_sub_multiples_vanish(thread, d);
            assert((thread - d) % d == thread % d);
        }
    }
}

} // verus!
