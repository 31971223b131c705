//! What holds of paths, of the command line, and of what is written of crashes.

use vstd::prelude::*;

use crate::crash::{exception_named, hex8, location_of, number_text, panic_report_of};
use crate::memory_monitor::{CacheSizes, MemoryAction, MemoryMonitor};
use crate::text::{ascii_text, blanks_around_are_trimmed, decimal, is_white_space, trimmed};
use crate::workdir::{config_arg_in, joined, log_level_of, work_dir_in, ConfigArgView};

verus! {

/// A path starts with its directory and ends with its last step, with one slash between;
/// nothing is in front of a name that starts at the root or that is in no directory.
pub proof fn steps_are_parted_by_a_slash(dir: Seq<char>, name: Seq<char>)
    ensures
        name.len() > 0 && name[0] == '/' ==> joined(dir, name) == name,
        joined(Seq::empty(), name) == name,
        dir.len() > 0 && dir.last() != '/' && (name.len() == 0 || name[0] != '/') ==> joined(
            dir,
            name,
        ) == dir.push('/') + name,
        dir.len() > 0 && dir.last() == '/' && (name.len() == 0 || name[0] != '/') ==> joined(
            dir,
            name,
        ) == dir + name,
        dir.len() > 0 && dir.last() != '/' ==> joined(dir.push('/'), name) == joined(dir, name),
{
    reveal_strlit("/");
    assert(dir + "/"@ =~= dir.push('/'));
}

/// The directory is what stands behind the first `--work-dir` that something stands behind, and
/// there is none exactly where there is no such argument.
pub proof fn the_first_work_dir_counts(args: Seq<Seq<char>>, from: int, k: int)
    requires
        0 <= from <= k,
    ensures
        k + 1 < args.len() && args[k] == "--work-dir"@ && (forall|j: int|
            from <= j < k ==> #[trigger] args[j] != "--work-dir"@) ==> work_dir_in(args, from)
            == Some(args[k + 1]),
        (forall|j: int| from <= j < args.len() ==> #[trigger] args[j] != "--work-dir"@)
            ==> work_dir_in(args, from) is None,
        work_dir_in(args, from) is None && k + 1 < args.len() ==> args[k] != "--work-dir"@,
    decreases args.len() - from,
{
    if from < args.len() && !(args[from] == "--work-dir"@ && from + 1 < args.len()) {
        if from < k {
            the_first_work_dir_counts(args, from + 1, k);
        } else {
            the_first_work_dir_counts(args, from + 1, from + 1);
        }
    }
}

/// The first of the arguments that speak of the configuration decides: `--config` and `-c` with
/// what stands behind them, `--help` and `-h` alone.
pub proof fn the_first_config_argument_counts(args: Seq<Seq<char>>, from: int, k: int)
    requires
        0 <= from <= k < args.len(),
        forall|j: int|
            from <= j < k ==> #[trigger] args[j] != "--config"@ && args[j] != "-c"@ && args[j]
                != "--help"@ && args[j] != "-h"@,
    ensures
        (args[k] == "--config"@ || args[k] == "-c"@) && k + 1 < args.len() ==> config_arg_in(
            args,
            from,
        ) == ConfigArgView::Path(args[k + 1]),
        args[k] == "--help"@ || args[k] == "-h"@ ==> config_arg_in(args, from)
            == ConfigArgView::Help,
        k + 1 == args.len() && args[k] != "--help"@ && args[k] != "-h"@ ==> config_arg_in(
            args,
            from,
        ) == ConfigArgView::Absent,
    decreases k - from,
{
    reveal_strlit("--config");
    reveal_strlit("-c");
    reveal_strlit("--help");
    reveal_strlit("-h");
    assert("--config"@.len() == 8 && "-c"@.len() == 2 && "--help"@.len() == 6 && "-h"@.len() == 2);
    assert("-c"@[1] == 'c' && "-h"@[1] == 'h');
    if from < k {
        the_first_config_argument_counts(args, from + 1, k);
    } else if k + 1 == args.len() {
        assert(config_arg_in(args, k + 1) == ConfigArgView::Absent);
    }
}

/// The log level is what the configuration says, without the blanks around it, and `info` where
/// it says nothing.
pub proof fn blank_levels_are_info(before: Seq<char>, level: Seq<char>, after: Seq<char>)
    requires
        forall|i: int| 0 <= i < before.len() ==> is_white_space(#[trigger] before[i]),
        forall|i: int| 0 <= i < after.len() ==> is_white_space(#[trigger] after[i]),
    ensures
        log_level_of(None) == "info"@,
        log_level_of(Some(Seq::empty())) == "info"@,
        level.len() > 0 && !is_white_space(level[0]) && !is_white_space(level.last())
            ==> log_level_of(Some(before + level + after)) == level,
{
    if level.len() > 0 && !is_white_space(level[0]) && !is_white_space(level.last()) {
        blanks_around_are_trimmed(before, level, after);
    }
    assert(trimmed(Seq::empty()) =~= Seq::empty());
}

/// The value of an upper-case hexadecimal digit.
pub open spec fn upper_value(d: u8) -> int {
    if d <= 57 {
        d - 48
    } else {
        d - 55
    }
}

/// A code is written in eight digits, from `0` to `9` and `A` to `F`, that spell it.
pub proof fn eight_digits_spell_the_code(n: u32, i: int)
    requires
        0 <= i < 8,
    ensures
        hex8(n).len() == 8,
        48 <= hex8(n)[i] <= 57 || 65 <= hex8(n)[i] <= 70,
        n == upper_value(hex8(n)[0]) * 0x1000_0000 + upper_value(hex8(n)[1]) * 0x100_0000
            + upper_value(hex8(n)[2]) * 0x10_0000 + upper_value(hex8(n)[3]) * 0x1_0000
            + upper_value(hex8(n)[4]) * 0x1000 + upper_value(hex8(n)[5]) * 0x100 + upper_value(
            hex8(n)[6],
        ) * 0x10 + upper_value(hex8(n)[7]),
{
    assert(n / 0x1000_0000 < 16 && n == (n / 0x1000_0000) * 0x1000_0000 + (n / 0x100_0000 % 16)
        * 0x100_0000 + (n / 0x10_0000 % 16) * 0x10_0000 + (n / 0x1_0000 % 16) * 0x1_0000 + (n
        / 0x1000 % 16) * 0x1000 + (n / 0x100 % 16) * 0x100 + (n / 0x10 % 16) * 0x10 + n % 16)
        by (bit_vector);
    let h = hex8(n);
    assert(upper_value(h[0]) == n / 0x1000_0000);
    assert(upper_value(h[1]) == n / 0x100_0000 % 16);
    assert(upper_value(h[2]) == n / 0x10_0000 % 16);
    assert(upper_value(h[3]) == n / 0x1_0000 % 16);
    assert(upper_value(h[4]) == n / 0x1000 % 16);
    assert(upper_value(h[5]) == n / 0x100 % 16);
    assert(upper_value(h[6]) == n / 0x10 % 16);
    assert(upper_value(h[7]) == n % 16);
}

/// A place is the file, the line and the column, parted by colons.
pub proof fn places_are_parted_by_colons(file: Seq<char>, line: u32, column: u32)
    ensures
        location_of(file, line, column) == file.push(':') + ascii_text(decimal(line as nat)).push(
            ':',
        ) + ascii_text(decimal(column as nat)),
        number_text(line) == ascii_text(decimal(line as nat)),
{
    reveal_strlit(":");
    assert(location_of(file, line, column) =~= file.push(':') + ascii_text(
        decimal(line as nat),
    ).push(':') + ascii_text(decimal(column as nat)));
}

/// Memory within the threshold is left alone, and so it is after five rounds; else a cache of at
/// least a hundred thousand entries gives up a tenth of them, and any other none.
pub proof fn large_caches_give_up_a_tenth(m: MemoryMonitor, memory_mb: u64, sizes: CacheSizes)
    ensures
        memory_mb <= m.threshold_mb ==> m.next_of(memory_mb, sizes) == MemoryAction::Done,
        m.rounds >= 5 ==> m.next_of(memory_mb, sizes) == MemoryAction::Done,
        memory_mb > m.threshold_mb && m.rounds < 5 && (sizes.nodes >= 100_000 || sizes.peers
            >= 100_000 || sizes.infohashes >= 100_000 || sizes.trackers >= 100_000) ==> m.next_of(
            memory_mb,
            sizes,
        ) is Evict,
        m.next_of(memory_mb, sizes) matches MemoryAction::Evict(e) ==> {
            &&& sizes.nodes >= 100_000 ==> 10 * e.nodes <= sizes.nodes < 10 * e.nodes + 10
            &&& sizes.peers >= 100_000 ==> 10 * e.peers <= sizes.peers < 10 * e.peers + 10
            &&& sizes.infohashes >= 100_000 ==> 10 * e.infohashes <= sizes.infohashes < 10
                * e.infohashes + 10
            &&& sizes.trackers >= 100_000 ==> 10 * e.trackers <= sizes.trackers < 10 * e.trackers
                + 10
            &&& sizes.nodes < 100_000 ==> e.nodes == 0
            &&& sizes.peers < 100_000 ==> e.peers == 0
            &&& sizes.infohashes < 100_000 ==> e.infohashes == 0
            &&& sizes.trackers < 100_000 ==> e.trackers == 0
        },
{
}

/// Seven codes have names, each its own; any other code is unknown.
pub proof fn seven_exceptions_have_names(code: u32)
    ensures
        exception_named(code) != "UNKNOWN"@ <==> code == 0xC0000005 || code == 0xC00000FD || code
            == 0xC000001D || code == 0xC0000094 || code == 0xC0000095 || code == 0xC000008C || code
            == 0xE06D7363,
        exception_named(code) == "ACCESS_VIOLATION"@ <==> code == 0xC0000005,
        exception_named(code) == "STACK_OVERFLOW"@ <==> code == 0xC00000FD,
{
    reveal_strlit("UNKNOWN");
    reveal_strlit("ACCESS_VIOLATION");
    reveal_strlit("STACK_OVERFLOW");
    reveal_strlit("ILLEGAL_INSTRUCTION");
    reveal_strlit("INTEGER_DIVIDE_BY_ZERO");
    reveal_strlit("INTEGER_OVERFLOW");
    reveal_strlit("ARRAY_BOUNDS_EXCEEDED");
    reveal_strlit("CPP_EXCEPTION");
    assert("UNKNOWN"@.len() == 7 && "ACCESS_VIOLATION"@.len() == 16);
    assert("STACK_OVERFLOW"@.len() == 14 && "ILLEGAL_INSTRUCTION"@.len() == 19);
    assert("INTEGER_DIVIDE_BY_ZERO"@.len() == 22 && "INTEGER_OVERFLOW"@.len() == 16);
    assert("ARRAY_BOUNDS_EXCEEDED"@.len() == 21 && "CPP_EXCEPTION"@.len() == 13);
    assert("ACCESS_VIOLATION"@[0] == 'A' && "INTEGER_OVERFLOW"@[0] == 'I');
}

/// A report of a panic holds its message, its place and its stack.
pub proof fn reports_hold_what_is_known(
    time: Seq<char>,
    thread: Seq<char>,
    place: Seq<char>,
    message: Seq<char>,
    stack: Seq<char>,
)
    ensures
        exists|i: int|
            0 <= i && #[trigger] panic_report_of(time, thread, place, message, stack).subrange(
                i,
                i + message.len(),
            ) == message && i + message.len() <= panic_report_of(
                time,
                thread,
                place,
                message,
                stack,
            ).len(),
        exists|i: int|
            0 <= i && #[trigger] panic_report_of(time, thread, place, message, stack).subrange(
                i,
                i + place.len(),
            ) == place && i + place.len() <= panic_report_of(
                time,
                thread,
                place,
                message,
                stack,
            ).len(),
        exists|i: int|
            0 <= i && #[trigger] panic_report_of(time, thread, place, message, stack).subrange(
                i,
                i + stack.len(),
            ) == stack && i + stack.len() <= panic_report_of(
                time,
                thread,
                place,
                message,
                stack,
            ).len(),
{
    let r = panic_report_of(time, thread, place, message, stack);
    let s0 = "===== PANIC CRASH REPORT =====\n时间: "@;
    let s1 = "\n线程: "@;
    let s2 = "\n位置: "@;
    let s3 = "\n信息: "@;
    let s4 = "\n堆栈:\n"@;
    let c = (s0 + time + s1 + thread + s2).len() as int;
    let d = c + place.len() + s3.len();
    let e = d + message.len() + s4.len();
    assert(r.subrange(c, c + place.len()) =~= place);
    assert(r.subrange(d, d + message.len()) =~= message);
    assert(r.subrange(e, e + stack.len()) =~= stack);
}

} // verus!
