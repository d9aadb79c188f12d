//! The decisions of the injection flow: the command line that launches the
//! game, when to inject while debugging it, the bytes handed to
//! `LoadLibraryA`, and the messages reported on failure.

use vstd::prelude::*;

use crate::text::{
    chars_of, decimal, ends_with, has_suffix, lowercase, push_char, push_decimal, push_str,
    string_from, to_lower, trim, trim_str,
};

verus! {

/// Payload for the `"log"` event: `{ message, success }`.
#[derive(Debug, Clone)]
pub struct LogPayload {
    pub message: String,
    pub success: bool,
}

/// The debug event code of a DLL load.
pub const LOAD_DLL_DEBUG_EVENT: u32 = 6;

/// The debug event code of the process exiting.
pub const EXIT_PROCESS_DEBUG_EVENT: u32 = 5;

/// The Win32 error code for a missing file.
pub const ERROR_FILE_NOT_FOUND: u32 = 2;

/// The command line that launches the game: its path, a space and the
/// launch arguments, without surrounding whitespace.
pub fn command_line(gmod_path: &str, launch_args: &str) -> (r: String)
    ensures
        r@ == trim(gmod_path@ + seq![' '] + launch_args@),
{
    let mut s = string_from(gmod_path);
    push_char(&mut s, ' ');
    push_str(&mut s, launch_args);
    assert(s@ =~= gmod_path@ + seq![' '] + launch_args@);
    trim_str(s.as_str())
}

/// Whether `lower`, the lowercase form of a loaded module's mapped name,
/// names the marker DLL (`menusystem.dll`).
pub fn is_marker_lower(lower: &str) -> (b: bool)
    ensures
        b == ends_with(lower@, "menusystem.dll"@),
{
    let cs = chars_of(lower);
    has_suffix(cs.as_slice(), "menusystem.dll")
}

/// Whether a loaded module is the marker DLL (`menusystem.dll`), which loads
/// right after `lua_shared.dll`.
pub fn is_marker_dll(mapped_name: &str) -> (b: bool)
    ensures
        b == ends_with(lowercase(mapped_name@), "menusystem.dll"@),
{
    let lower = to_lower(mapped_name);
    is_marker_lower(lower.as_str())
}

/// What the debug loop does with an event.
#[derive(Debug, Clone, Copy, PartialEq, Eq, Structural)]
pub enum DebugStep {
    /// The marker DLL has loaded: inject now.
    Inject,
    /// The game exited before injection.
    Abort,
    /// Hand the event back to the game and wait for the next one.
    Continue,
}

/// The step for a debug event: inject on the marker DLL's load, stop when
/// the process exits, and otherwise continue.
pub fn debug_step(event_code: u32, marker_loaded: bool) -> (s: DebugStep)
    ensures
        s == (if event_code == LOAD_DLL_DEBUG_EVENT && marker_loaded {
            DebugStep::Inject
        } else if event_code == EXIT_PROCESS_DEBUG_EVENT {
            DebugStep::Abort
        } else {
            DebugStep::Continue
        }),
{
    if event_code == LOAD_DLL_DEBUG_EVENT && marker_loaded {
        DebugStep::Inject
    } else if event_code == EXIT_PROCESS_DEBUG_EVENT {
        DebugStep::Abort
    } else {
        DebugStep::Continue
    }
}

/// The byte `LoadLibraryA` reads for a character: itself when ASCII, `?`
/// otherwise.
pub open spec fn ansi_byte(c: char) -> u8 {
    if (c as u32) < 0x80 {
        c as u8
    } else {
        0x3F
    }
}

/// Every ASCII character (control characters, space and DEL included) is
/// written as its own code; every other character as `?`.
pub proof fn lemma_ansi_byte(c: char)
    ensures
        (c as u32) < 0x80 ==> ansi_byte(c) as u32 == c as u32,
        (c as u32) >= 0x80 ==> ansi_byte(c) == 0x3F,
{
    let u = c as u32;
    if u < 0x80 {
        assert((u as u8) as u32 == u) by (bit_vector)
            requires
                u < 0x80,
        ;
    }
}

/// The NUL-terminated ANSI path written into the game's memory.
pub fn loader_path_bytes(path: &str) -> (r: Vec<u8>)
    ensures
        r@ == path@.map_values(|c: char| ansi_byte(c)).push(0),
        r@.len() == path@.len() + 1,
        r@[path@.len() as int] == 0,
        forall|i: int|
            0 <= i < path@.len() ==> if (path@[i] as u32) < 0x80 {
                r@[i] as u32 == path@[i] as u32
            } else {
                r@[i] == 0x3F
            },
{
    proof {
        assert forall|i: int| 0 <= i < path@.len() implies ansi_byte(path@[i]) as u32 == (if (path@[i] as u32)
            < 0x80 {
            path@[i] as u32
        } else {
            0x3F
        }) by {
            lemma_ansi_byte(path@[i]);
        }
    }
    let cs = chars_of(path);
    let mut r: Vec<u8> = Vec::new();
    let mut i: usize = 0;
    while i < cs.len()
        invariant
            cs@ == path@,
            i <= cs@.len(),
            r@ == cs@.take(i as int).map_values(|c: char| ansi_byte(c)),
        decreases cs@.len() - i,
    {
        let c = cs[i];
        if (c as u32) < 0x80 {
            r.push(c as u8);
        } else {
            r.push(0x3F);
        }
        i = i + 1;
        assert(r@ =~= cs@.take(i as int).map_values(|c: char| ansi_byte(c)));
    }
    assert(cs@.take(cs@.len() as int) =~= cs@);
    r.push(0);
    r
}

/// The message for a failed Win32 call: what failed, the error code and
/// the system's text for it.
pub open spec fn win32_failure(what: Seq<char>, code: u32, text: Seq<char>) -> Seq<char> {
    what + ": Error "@ + decimal(code as nat) + ": "@ + text
}

/// The message when the game process cannot be created.
pub fn launch_error(code: u32, text: &str) -> (r: String)
    ensures
        r@ == (if code == ERROR_FILE_NOT_FOUND {
            "gmod.exe not found. Make sure you are on the x86-64 branch of GMod."@
        } else {
            win32_failure("failed to create process"@, code, text@)
        }),
{
    if code == ERROR_FILE_NOT_FOUND {
        return string_from("gmod.exe not found. Make sure you are on the x86-64 branch of GMod.");
    }
    failure_message("failed to create process", code, text)
}

/// The message when waiting for a debug event fails.
pub fn wait_error(code: u32, text: &str) -> (r: String)
    ensures
        r@ == win32_failure("failed to wait for debug event"@, code, text@),
{
    failure_message("failed to wait for debug event", code, text)
}

fn failure_message(what: &str, code: u32, text: &str) -> (r: String)
    ensures
        r@ == win32_failure(what@, code, text@),
{
    let mut s = string_from(what);
    push_str(&mut s, ": Error ");
    push_decimal(&mut s, code as u64);
    push_str(&mut s, ": ");
    push_str(&mut s, text);
    s
}

} // verus!
