//! What is told of a command that ran in the shell.
use crate::cut::{cap_str, capped};
use crate::decimal::{dec, dec_int, write_i64, write_u64};
use crate::text::{trim, trimmed};
use vstd::prelude::*;

verus! {

/// What is put behind output that is cut.
pub const OUTPUT_CUT_MARK: &'static str = "\n…[已截断]";

/// How a command ended.
#[derive(Debug)]
pub enum RunEnd {
    /// It did not start; why.
    NotStarted(String),
    /// The user interrupted.
    Interrupted,
    /// It ended, with its exit code when it has one, what it wrote, and what it
    /// wrote beside when it did.
    Ended { code: Option<i32>, stdout: String, stderr: Option<String> },
    /// Its end could not be waited for; why.
    WaitFailed(String),
    /// It took longer than so many seconds.
    TimedOut(u64),
}

/// All that a command wrote.
pub open spec fn output_text(stdout: Seq<char>, stderr: Option<Seq<char>>) -> Seq<char> {
    match stderr {
        Some(e) => stdout + "\n[stderr]\n"@ + e,
        None => stdout,
    }
}

/// What is told of a command that ended.
pub open spec fn run_text(end: RunEnd, max: int) -> Seq<char> {
    match end {
        RunEnd::NotStarted(e) => "启动失败: "@ + e@,
        RunEnd::Interrupted => "用户中断，已终止"@,
        RunEnd::Ended { code, stdout, stderr } => {
            let shown = match code {
                Some(c) => c as int,
                None => -1,
            };
            "退出码 "@ + dec_int(shown) + "\n"@ + capped(
                trim(
                    output_text(
                        stdout@,
                        match stderr {
                            Some(e) => Some(e@),
                            None => None,
                        },
                    ),
                ),
                max,
                OUTPUT_CUT_MARK@,
            )
        },
        RunEnd::WaitFailed(e) => "执行失败: "@ + e@,
        RunEnd::TimedOut(secs) => "超时（"@ + dec(secs as nat) + "s），已终止"@,
    }
}

/// What is told of a command that ended, with at most so many bytes of what it
/// wrote.
pub fn foreground_report(end: &RunEnd, max: usize) -> (r: String)
    ensures
        r@ == run_text(*end, max as int),
{
    match end {
        RunEnd::NotStarted(e) => {
            let mut s = "启动失败: ".to_owned();
            s.push_str(e.as_str());
            s
        },
        RunEnd::Interrupted => "用户中断，已终止".to_owned(),
        RunEnd::Ended { code, stdout, stderr } => {
            let mut all = stdout.clone();
            if let Some(e) = stderr {
                all.push_str("\n[stderr]\n");
                all.push_str(e.as_str());
            }
            let mut s = "退出码 ".to_owned();
            let shown: i64 = match code {
                Some(c) => *c as i64,
                None => -1,
            };
            s.push_str(write_i64(shown).as_str());
            s.push_str("\n");
            s.push_str(cap_str(trimmed(all.as_str()).as_str(), max, OUTPUT_CUT_MARK).as_str());
            s
        },
        RunEnd::WaitFailed(e) => {
            let mut s = "执行失败: ".to_owned();
            s.push_str(e.as_str());
            s
        },
        RunEnd::TimedOut(secs) => {
            let mut s = "超时（".to_owned();
            s.push_str(write_u64(*secs).as_str());
            s.push_str("s），已终止");
            s
        },
    }
}

/// Whether the processes that a command started are to be ended with it.
pub fn leaves_processes(end: &RunEnd) -> (r: bool)
    ensures
        r == (*end is Interrupted || *end is TimedOut),
{
    match end {
        RunEnd::Interrupted => true,
        RunEnd::TimedOut(_) => true,
        _ => false,
    }
}

} // verus!
