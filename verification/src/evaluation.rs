//! How a solution is run on a testcase: the descriptions of the executions, the memory limit given
//! to the sandbox, and, for a communication task, the command lines that connect the solution
//! processes with the manager through pairs of FIFOs.

use vstd::prelude::*;

use crate::ioi::UserIo;
use crate::text::{decimal, push_str, u64_to_string};
use crate::words::string_views;

verus! {

/// The description of the evaluation of a solution on a testcase.
pub open spec fn evaluation_text(name: Seq<char>, testcase: nat, subtask: nat) -> Seq<char> {
    "Evaluation of "@ + name + " on testcase "@ + decimal(testcase) + ", subtask "@ + decimal(subtask)
}

/// The description of the evaluation of a solution on a testcase.
pub fn evaluation_description(name: &str, testcase: u32, subtask: u32) -> (res: String)
    ensures
        res@ == evaluation_text(name@, testcase as nat, subtask as nat),
{
    let mut s = "Evaluation of ".to_owned();
    push_str(&mut s, name);
    push_str(&mut s, " on testcase ");
    let t = u64_to_string(testcase as u64);
    push_str(&mut s, t.as_str());
    push_str(&mut s, ", subtask ");
    let st = u64_to_string(subtask as u64);
    push_str(&mut s, st.as_str());
    s
}

/// The description of one of the processes of a solution of a communication task, numbered from
/// one.
pub open spec fn process_text(name: Seq<char>, process: nat, processes: nat, testcase: nat, subtask: nat) -> Seq<char> {
    "Evaluation of "@ + name + " (process "@ + decimal(process + 1) + "/"@ + decimal(processes) + ") on testcase "@
        + decimal(testcase) + ", subtask "@ + decimal(subtask)
}

/// The description of the process `process_index` (from zero) of a solution of a communication
/// task.
pub fn process_description(name: &str, process_index: u32, num_processes: u32, testcase: u32, subtask: u32) -> (res: String)
    ensures
        res@ == process_text(name@, process_index as nat, num_processes as nat, testcase as nat, subtask as nat),
{
    let mut s = "Evaluation of ".to_owned();
    push_str(&mut s, name);
    push_str(&mut s, " (process ");
    let p = u64_to_string(process_index as u64 + 1);
    push_str(&mut s, p.as_str());
    push_str(&mut s, "/");
    let n = u64_to_string(num_processes as u64);
    push_str(&mut s, n.as_str());
    push_str(&mut s, ") on testcase ");
    let t = u64_to_string(testcase as u64);
    push_str(&mut s, t.as_str());
    push_str(&mut s, ", subtask ");
    let st = u64_to_string(subtask as u64);
    push_str(&mut s, st.as_str());
    s
}

/// The description of the manager of a communication task.
pub open spec fn manager_text(name: Seq<char>, testcase: nat, subtask: nat) -> Seq<char> {
    "Manager of "@ + name + " on testcase "@ + decimal(testcase) + ", subtask "@ + decimal(subtask)
}

/// The description of the manager of a communication task, for the solution named `name`.
pub fn manager_description(name: &str, testcase: u32, subtask: u32) -> (res: String)
    ensures
        res@ == manager_text(name@, testcase as nat, subtask as nat),
{
    let mut s = "Manager of ".to_owned();
    push_str(&mut s, name);
    push_str(&mut s, " on testcase ");
    let t = u64_to_string(testcase as u64);
    push_str(&mut s, t.as_str());
    push_str(&mut s, ", subtask ");
    let st = u64_to_string(subtask as u64);
    push_str(&mut s, st.as_str());
    s
}

/// The memory limit of the sandbox, in KiB, for a limit of the task in MiB.
pub fn memory_limit_kib(memory_limit: u64) -> (res: u64)
    requires
        memory_limit * 1024 <= u64::MAX,
    ensures
        res == memory_limit * 1024,
{
    memory_limit * 1024
}

/// The command line of the process `process_index` of a solution: the FIFO it reads from and the
/// one it writes to when it talks through FIFOs, nothing when it uses its standard input and
/// output; then its index when there is more than one process.
pub open spec fn solution_args_spec(
    user_io: UserIo,
    man2sol: Seq<Seq<char>>,
    sol2man: Seq<Seq<char>>,
    process_index: nat,
    num_processes: nat,
) -> Seq<Seq<char>> {
    let fifos = match user_io {
        UserIo::FifoIo => seq![man2sol[process_index as int], sol2man[process_index as int]],
        UserIo::StdIo => Seq::empty(),
    };
    if num_processes > 1 {
        fifos.push(decimal(process_index))
    } else {
        fifos
    }
}

/// The command line of the process `process_index` of a solution of a communication task.
pub fn solution_args(
    user_io: UserIo,
    man2sol: &Vec<String>,
    sol2man: &Vec<String>,
    process_index: usize,
    num_processes: usize,
) -> (res: Vec<String>)
    requires
        process_index < man2sol@.len(),
        process_index < sol2man@.len(),
    ensures
        string_views(res@) == solution_args_spec(
            user_io,
            string_views(man2sol@),
            string_views(sol2man@),
            process_index as nat,
            num_processes as nat,
        ),
{
    let mut args: Vec<String> = Vec::new();
    match user_io {
        UserIo::FifoIo => {
            args.push(man2sol[process_index].clone());
            args.push(sol2man[process_index].clone());
        },
        UserIo::StdIo => {},
    }
    if num_processes > 1 {
        args.push(u64_to_string(process_index as u64));
    }
    proof {
        assert(string_views(args@) =~= solution_args_spec(
            user_io,
            string_views(man2sol@),
            string_views(sol2man@),
            process_index as nat,
            num_processes as nat,
        ));
    }
    args
}

/// The command line of the manager: for each process, the FIFO it reads from the process, then the
/// one it writes to it.
pub open spec fn manager_args_spec(man2sol: Seq<Seq<char>>, sol2man: Seq<Seq<char>>, n: int) -> Seq<Seq<char>>
    decreases n,
{
    if n <= 0 {
        Seq::empty()
    } else {
        manager_args_spec(man2sol, sol2man, n - 1).push(sol2man[n - 1]).push(man2sol[n - 1])
    }
}

/// The command line of the manager of a communication task with `num_processes` processes.
pub fn manager_args(man2sol: &Vec<String>, sol2man: &Vec<String>, num_processes: usize) -> (res: Vec<String>)
    requires
        num_processes <= man2sol@.len(),
        num_processes <= sol2man@.len(),
    ensures
        string_views(res@) == manager_args_spec(string_views(man2sol@), string_views(sol2man@), num_processes as int),
{
    let mut args: Vec<String> = Vec::new();
    let mut i: usize = 0;
    while i < num_processes
        invariant
            i <= num_processes,
            num_processes <= man2sol@.len(),
            num_processes <= sol2man@.len(),
            string_views(args@) == manager_args_spec(string_views(man2sol@), string_views(sol2man@), i as int),
        decreases num_processes - i,
    {
        let ghost before = args@;
        args.push(sol2man[i].clone());
        args.push(man2sol[i].clone());
        proof {
            assert(string_views(args@) =~= string_views(before).push(sol2man@[i as int]@).push(man2sol@[i as int]@));
        }
        i += 1;
    }
    args
}

} // verus!
