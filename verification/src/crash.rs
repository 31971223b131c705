//! What is written down when the node crashes.

use vstd::prelude::*;
use vstd::string::*;

use crate::text::{ascii_string, ascii_text, decimal, decimal_round_trip, is_digit, push_decimal};
use crate::workdir::{join, joined};

verus! {

/// The decimal numeral of a number as a text.
pub open spec fn number_text(n: u32) -> Seq<char> {
    ascii_text(decimal(n as nat))
}

fn number(n: u32) -> (r: String)
    ensures
        r@ == number_text(n),
{
    let mut out: Vec<u8> = Vec::new();
    push_decimal(&mut out, n as u64);
    proof {
        decimal_round_trip(n as nat);
        assert(out@ =~= decimal(n as nat));
        assert forall|i: int| 0 <= i < out@.len() implies #[trigger] out@[i] < 128 by {
            assert(is_digit(out@[i]));
        }
    }
    ascii_string(out)
}

/// A place in the source: file, line and column.
pub open spec fn location_of(file: Seq<char>, line: u32, column: u32) -> Seq<char> {
    file + ":"@ + number_text(line) + ":"@ + number_text(column)
}

/// A place in the source: file, line and column.
pub fn location_text(file: &str, line: u32, column: u32) -> (r: String)
    ensures
        r@ == location_of(file@, line, column),
{
    let mut s: String = file.to_owned();
    s.append(":");
    s.append(number(line).as_str());
    s.append(":");
    s.append(number(column).as_str());
    s
}

/// A text, or another where there is none.
pub open spec fn text_or(t: Option<String>, otherwise: Seq<char>) -> Seq<char> {
    match t {
        Some(s) => s@,
        None => otherwise,
    }
}

/// What is written down of a panic.
pub open spec fn panic_report_of(
    time: Seq<char>,
    thread: Seq<char>,
    location: Seq<char>,
    message: Seq<char>,
    backtrace: Seq<char>,
) -> Seq<char> {
    "===== PANIC CRASH REPORT =====\n时间: "@ + time + "\n线程: "@ + thread + "\n位置: "@ + location
        + "\n信息: "@ + message + "\n堆栈:\n"@ + backtrace + "\n===============================\n"@
}

/// What is written down of a panic. Where its place or its message is not known, the report
/// says so.
pub fn panic_report(
    time: &str,
    thread: &str,
    location: &Option<String>,
    message: &Option<String>,
    backtrace: &str,
) -> (r: String)
    ensures
        r@ == panic_report_of(
            time@,
            thread@,
            text_or(*location, "未知位置"@),
            text_or(*message, "未知 panic 信息"@),
            backtrace@,
        ),
{
    let mut s: String = "===== PANIC CRASH REPORT =====\n时间: ".to_owned();
    s.append(time);
    s.append("\n线程: ");
    s.append(thread);
    s.append("\n位置: ");
    match location {
        Some(t) => {
            s.append(t.as_str());
        },
        None => {
            s.append("未知位置");
        },
    }
    s.append("\n信息: ");
    match message {
        Some(t) => {
            s.append(t.as_str());
        },
        None => {
            s.append("未知 panic 信息");
        },
    }
    s.append("\n堆栈:\n");
    s.append(backtrace);
    s.append("\n===============================\n");
    s
}

/// The name of an exception of the operating system.
pub open spec fn exception_named(code: u32) -> Seq<char> {
    if code == 0xC0000005 {
        "ACCESS_VIOLATION"@
    } else if code == 0xC00000FD {
        "STACK_OVERFLOW"@
    } else if code == 0xC000001D {
        "ILLEGAL_INSTRUCTION"@
    } else if code == 0xC0000094 {
        "INTEGER_DIVIDE_BY_ZERO"@
    } else if code == 0xC0000095 {
        "INTEGER_OVERFLOW"@
    } else if code == 0xC000008C {
        "ARRAY_BOUNDS_EXCEEDED"@
    } else if code == 0xE06D7363 {
        "CPP_EXCEPTION"@
    } else {
        "UNKNOWN"@
    }
}

/// The name of an exception of the operating system.
pub fn exception_name(code: u32) -> (r: &'static str)
    ensures
        r@ == exception_named(code),
{
    if code == 0xC0000005 {
        "ACCESS_VIOLATION"
    } else if code == 0xC00000FD {
        "STACK_OVERFLOW"
    } else if code == 0xC000001D {
        "ILLEGAL_INSTRUCTION"
    } else if code == 0xC0000094 {
        "INTEGER_DIVIDE_BY_ZERO"
    } else if code == 0xC0000095 {
        "INTEGER_OVERFLOW"
    } else if code == 0xC000008C {
        "ARRAY_BOUNDS_EXCEEDED"
    } else if code == 0xE06D7363 {
        "CPP_EXCEPTION"
    } else {
        "UNKNOWN"
    }
}

/// A hexadecimal digit in upper case.
pub open spec fn upper_digit(n: u32) -> u8 {
    if n < 10 {
        (48 + n) as u8
    } else {
        (55 + n) as u8
    }
}

/// A number in eight hexadecimal digits in upper case.
pub open spec fn hex8(n: u32) -> Seq<u8> {
    seq![
        upper_digit(n / 0x1000_0000),
        upper_digit(n / 0x100_0000 % 16),
        upper_digit(n / 0x10_0000 % 16),
        upper_digit(n / 0x1_0000 % 16),
        upper_digit(n / 0x1000 % 16),
        upper_digit(n / 0x100 % 16),
        upper_digit(n / 0x10 % 16),
        upper_digit(n % 16)
    ]
}

fn push_digit(out: &mut Vec<u8>, n: u32)
    requires
        n < 16,
    ensures
        final(out)@ == old(out)@.push(upper_digit(n)),
{
    if n < 10 {
        out.push((48 + n) as u8);
    } else {
        out.push((55 + n) as u8);
    }
}

fn hex8_text(n: u32) -> (r: String)
    ensures
        r@ == ascii_text(hex8(n)),
{
    let mut out: Vec<u8> = Vec::new();
    push_digit(&mut out, n / 0x1000_0000);
    push_digit(&mut out, n / 0x100_0000 % 16);
    push_digit(&mut out, n / 0x10_0000 % 16);
    push_digit(&mut out, n / 0x1_0000 % 16);
    push_digit(&mut out, n / 0x1000 % 16);
    push_digit(&mut out, n / 0x100 % 16);
    push_digit(&mut out, n / 0x10 % 16);
    push_digit(&mut out, n % 16);
    proof {
        assert(out@ =~= hex8(n));
    }
    ascii_string(out)
}

/// What is written down of an exception of the operating system.
pub open spec fn exception_report_of(time: Seq<char>, code: u32, pointers: Seq<char>) -> Seq<char> {
    "===== SEH CRASH REPORT =====\n时间: "@ + time + "\n异常码: 0x"@ + ascii_text(hex8(code))
        + " ("@ + exception_named(code) + ")\nExceptionPointers: "@ + pointers
        + "\n=============================\n"@
}

/// What is written down of an exception of the operating system.
pub fn exception_report(time: &str, code: u32, pointers: &str) -> (r: String)
    ensures
        r@ == exception_report_of(time@, code, pointers@),
{
    let mut s: String = "===== SEH CRASH REPORT =====\n时间: ".to_owned();
    s.append(time);
    s.append("\n异常码: 0x");
    s.append(hex8_text(code).as_str());
    s.append(" (");
    s.append(exception_name(code));
    s.append(")\nExceptionPointers: ");
    s.append(pointers);
    s.append("\n=============================\n");
    s
}

/// Where crashes are written down: the last one, the last panic, the last exception.
pub fn crash_logs(logs_dir: &str) -> (r: (String, String, String))
    ensures
        r.0@ == joined(logs_dir@, "crash.log"@),
        r.1@ == joined(logs_dir@, "crash-panic.log"@),
        r.2@ == joined(logs_dir@, "crash-seh.log"@),
{
    (
        join(logs_dir, "crash.log"),
        join(logs_dir, "crash-panic.log"),
        join(logs_dir, "crash-seh.log"),
    )
}

/// Whether a signal of the console is taken care of here, so that the node runs on: the one
/// that the console is closed. The others are left to the operating system.
pub fn outlives_console_event(event: i32) -> (r: bool)
    ensures
        r == (event == 2),
{
    event == 2
}

} // verus!
