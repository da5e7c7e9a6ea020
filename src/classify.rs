//! The hazard classifier: decides which of four corruption patterns a command
//! would hit, first match in a fixed order.

use crate::bytes::{contains, find_bytes, is_alnum, occurs_at, spec_is_alnum, BACKSLASH, DOUBLE_QUOTE};
use crate::path::{anchor_at, is_anchor, run_end, separator_end};
use crate::scan::{state_before, step, Quote, ScanState};
use vstd::prelude::*;
use vstd::string::StringSliceAdditionalSpecFns;

verus! {

/// The markers of an inline-script invocation, in the order they are looked
/// for: `node -e `, `node -e"`, `node -e'`, `node --eval `.
pub open spec fn eval_marker(k: int) -> Seq<u8> {
    if k == 0 {
        seq![110u8, 111u8, 100u8, 101u8, 32u8, 45u8, 101u8, 32u8]
    } else if k == 1 {
        seq![110u8, 111u8, 100u8, 101u8, 32u8, 45u8, 101u8, 34u8]
    } else if k == 2 {
        seq![110u8, 111u8, 100u8, 101u8, 32u8, 45u8, 101u8, 39u8]
    } else {
        seq![110u8, 111u8, 100u8, 101u8, 32u8, 45u8, 45u8, 101u8, 118u8, 97u8, 108u8, 32u8]
    }
}

pub fn eval_marker_bytes(k: usize) -> (r: Vec<u8>)
    requires
        k < 4,
    ensures
        r@ == eval_marker(k as int),
{
    if k == 0 {
        vec![110u8, 111u8, 100u8, 101u8, 32u8, 45u8, 101u8, 32u8]
    } else if k == 1 {
        vec![110u8, 111u8, 100u8, 101u8, 32u8, 45u8, 101u8, 34u8]
    } else if k == 2 {
        vec![110u8, 111u8, 100u8, 101u8, 32u8, 45u8, 101u8, 39u8]
    } else {
        vec![110u8, 111u8, 100u8, 101u8, 32u8, 45u8, 45u8, 101u8, 118u8, 97u8, 108u8, 32u8]
    }
}

pub open spec fn has_eval_marker(s: Seq<u8>) -> bool {
    exists|k: int| 0 <= k < 4 && contains(s, eval_marker(k))
}

/// Marker `k` is the first marker, in the fixed order, that the command holds,
/// and `i` is where it first stands.
pub open spec fn marker_found(s: Seq<u8>, k: int, i: int) -> bool {
    &&& 0 <= k < 4
    &&& forall|m: int| 0 <= m < k ==> !contains(s, #[trigger] eval_marker(m))
    &&& occurs_at(s, eval_marker(k), i)
    &&& forall|j: int| 0 <= j < i ==> !occurs_at(s, eval_marker(k), j)
}

pub open spec fn eval_pos(s: Seq<u8>, i: int) -> bool {
    exists|k: int| marker_found(s, k, i)
}

pub proof fn lemma_eval_pos_has_marker(s: Seq<u8>, i: int)
    requires
        eval_pos(s, i),
    ensures
        has_eval_marker(s),
{
    let k = choose|k: int| marker_found(s, k, i);
    assert(contains(s, eval_marker(k)));
}

/// Where the inline-script invocation of a command starts.
pub fn eval_marker_position(s: &[u8]) -> (r: Option<usize>)
    ensures
        match r {
            Some(i) => eval_pos(s@, i as int),
            None => !has_eval_marker(s@),
        },
{
    let mut k: usize = 0;
    while k < 4
        invariant
            k <= 4,
            forall|m: int| 0 <= m < k ==> !contains(s@, #[trigger] eval_marker(m)),
        decreases 4 - k,
    {
        let pat = eval_marker_bytes(k);
        match find_bytes(s, pat.as_slice()) {
            Some(i) => {
                assert(marker_found(s@, k as int, i as int));
                return Some(i);
            },
            None => {},
        }
        k += 1;
    }
    None
}

/// Where `node -e` or `node --eval` first stands in the command.
pub fn find_node_eval_pos(command: &str) -> (r: Option<usize>)
    ensures
        match r {
            Some(i) => eval_pos(command.spec_bytes(), i as int),
            None => !has_eval_marker(command.spec_bytes()),
        },
{
    eval_marker_position(command.as_bytes())
}

/// The standard-stream device paths: `/dev/stdin`, `/dev/stdout`, `/dev/stderr`.
pub open spec fn device_path(k: int) -> Seq<u8> {
    if k == 0 {
        seq![47u8, 100u8, 101u8, 118u8, 47u8, 115u8, 116u8, 100u8, 105u8, 110u8]
    } else if k == 1 {
        seq![47u8, 100u8, 101u8, 118u8, 47u8, 115u8, 116u8, 100u8, 111u8, 117u8, 116u8]
    } else {
        seq![47u8, 100u8, 101u8, 118u8, 47u8, 115u8, 116u8, 100u8, 101u8, 114u8, 114u8]
    }
}

pub fn device_path_bytes(k: usize) -> (r: Vec<u8>)
    requires
        k < 3,
    ensures
        r@ == device_path(k as int),
{
    if k == 0 {
        vec![47u8, 100u8, 101u8, 118u8, 47u8, 115u8, 116u8, 100u8, 105u8, 110u8]
    } else if k == 1 {
        vec![47u8, 100u8, 101u8, 118u8, 47u8, 115u8, 116u8, 100u8, 111u8, 117u8, 116u8]
    } else {
        vec![47u8, 100u8, 101u8, 118u8, 47u8, 115u8, 116u8, 100u8, 101u8, 114u8, 114u8]
    }
}

/// An inline script names a device path that does not exist on Windows.
pub open spec fn device_hazard(s: Seq<u8>) -> bool {
    has_eval_marker(s) && exists|k: int| 0 <= k < 3 && contains(s, #[trigger] device_path(k))
}

/// A double-quoted region holds offset `i`, and a drive path starts in that
/// region before `i`.
pub open spec fn drive_in_dq_region(s: Seq<u8>, i: int) -> bool
    decreases i,
{
    if i <= 0 || i > s.len() {
        false
    } else {
        &&& state_before(s, i).quote == Quote::DoubleQuoted
        &&& (anchor_at(s, i - 1) && state_before(s, i - 1).quote == Quote::DoubleQuoted)
            || drive_in_dq_region(s, i - 1)
    }
}

/// Offset `k` is the end of the command, whitespace, or a command operator.
pub open spec fn looks_like_end(s: Seq<u8>, k: int) -> bool {
    k >= s.len() || s[k] == 32 || s[k] == 9 || s[k] == 10 || s[k] == 59 || s[k] == 124 || s[k]
        == 38 || s[k] == 62
}

/// At offset `j` a path separator escapes the quote meant to close a
/// double-quoted drive path.
pub open spec fn quote_collision_at(s: Seq<u8>, j: int) -> bool {
    &&& 0 <= j
    &&& j + 1 < s.len()
    &&& s[j] == BACKSLASH
    &&& s[j + 1] == DOUBLE_QUOTE
    &&& state_before(s, j).quote == Quote::DoubleQuoted
    &&& !state_before(s, j).pending_escape
    &&& drive_in_dq_region(s, j)
    &&& looks_like_end(s, j + 2)
}

pub open spec fn quote_collision(s: Seq<u8>) -> bool {
    exists|j: int| quote_collision_at(s, j)
}

/// A drive path whose separators are followed by a letter or digit.
pub open spec fn script_path_at(s: Seq<u8>, a: int) -> bool {
    anchor_at(s, a) && run_end(s, a + 2) < s.len() && spec_is_alnum(s[run_end(s, a + 2)])
}

/// Some inline-script marker starts at or before offset `a`.
pub open spec fn marker_by(s: Seq<u8>, a: int) -> bool {
    exists|i: int, k: int| 0 <= k < 4 && i <= a && #[trigger] occurs_at(s, eval_marker(k), i)
}

/// A drive path with backslashes stands after an inline-script marker.
pub open spec fn script_hazard(s: Seq<u8>) -> bool {
    exists|a: int| marker_by(s, a) && script_path_at(s, a)
}

/// An unquoted drive path whose first separator is a single backslash.
pub open spec fn unquoted_loss_at(s: Seq<u8>, a: int) -> bool {
    &&& anchor_at(s, a)
    &&& state_before(s, a).quote == Quote::Unquoted
    &&& a + 3 < s.len()
    &&& spec_is_alnum(s[a + 3])
}

pub open spec fn unquoted_loss(s: Seq<u8>) -> bool {
    exists|a: int| unquoted_loss_at(s, a)
}

pub const STDIN_MESSAGE: &'static str = "BLOCKED: /dev/stdin does not exist on Windows (Node resolves it to C:\\dev\\stdin).\n\
         \n\
         Fix options:\n\
         \n\
         1. Write to a temp file first, then pass the path as an argument:\n\
         \n\
            some_command > \"$TEMP/data.json\"\n\
            node -e \"const d = JSON.parse(require('fs').readFileSync(process.argv[1],'utf8')); ...\" \"%TEMP%\\data.json\"\n\
         \n\
         2. Use process.stdin in the node script:\n\
         \n\
            some_command | node -e \"let b=''; process.stdin.on('data',c=>b+=c); process.stdin.on('end',()=>{ ... });\"";

pub const STDOUT_MESSAGE: &'static str = "BLOCKED: /dev/stdout does not exist on Windows (Node resolves it to C:\\dev\\stdin).\n\
         \n\
         Fix options:\n\
         \n\
         1. Write to a temp file first, then pass the path as an argument:\n\
         \n\
            some_command > \"$TEMP/data.json\"\n\
            node -e \"const d = JSON.parse(require('fs').readFileSync(process.argv[1],'utf8')); ...\" \"%TEMP%\\data.json\"\n\
         \n\
         2. Use process.stdin in the node script:\n\
         \n\
            some_command | node -e \"let b=''; process.stdin.on('data',c=>b+=c); process.stdin.on('end',()=>{ ... });\"";

pub const STDERR_MESSAGE: &'static str = "BLOCKED: /dev/stderr does not exist on Windows (Node resolves it to C:\\dev\\stdin).\n\
         \n\
         Fix options:\n\
         \n\
         1. Write to a temp file first, then pass the path as an argument:\n\
         \n\
            some_command > \"$TEMP/data.json\"\n\
            node -e \"const d = JSON.parse(require('fs').readFileSync(process.argv[1],'utf8')); ...\" \"%TEMP%\\data.json\"\n\
         \n\
         2. Use process.stdin in the node script:\n\
         \n\
            some_command | node -e \"let b=''; process.stdin.on('data',c=>b+=c); process.stdin.on('end',()=>{ ... });\"";

/// The message for device path `k`.
pub open spec fn device_message_text(k: int) -> Seq<char> {
    if k == 0 {
        STDIN_MESSAGE@
    } else if k == 1 {
        STDOUT_MESSAGE@
    } else {
        STDERR_MESSAGE@
    }
}

fn device_message(k: usize) -> (r: String)
    ensures
        r@ == device_message_text(k as int),
{
    if k == 0 {
        STDIN_MESSAGE.to_owned()
    } else if k == 1 {
        STDOUT_MESSAGE.to_owned()
    } else {
        STDERR_MESSAGE.to_owned()
    }
}

pub const TRAILING_QUOTE_MESSAGE: &'static str = "BLOCKED: Trailing backslash before closing double-quote eats the quote.\n\
         \n\
         In bash, \\\" inside double quotes is an escaped literal quote, not a\n\
         path separator + closing quote. This causes:\n\
         \n\
             unexpected EOF while looking for matching `\"'\n\
         \n\
         Fix: Use forward slashes (always work on Windows in bash):\n\
         \n\
             ls -la \"C:/src/project/folder/\"     (works)\n\
             ls -la \"C:\\src\\project\\folder\\\"   (broken: \\\" eats the quote)\n\
         \n\
         Or drop the trailing slash:\n\
         \n\
             ls -la \"C:\\src\\project\\folder\"";

fn trailing_quote_message() -> (r: String)
    ensures
        r@ == TRAILING_QUOTE_MESSAGE@,
{
    TRAILING_QUOTE_MESSAGE.to_owned()
}

pub const SCRIPT_PATH_MESSAGE: &'static str = "BLOCKED: Windows backslash paths in node -e cause JavaScript escape bugs.\n\
         \n\
         After bash processes the command, paths like C:\\tmp\\ reach JavaScript\n\
         as C:\\t mp\\ where \\t is a TAB character. Same for \\n (newline),\n\
         \\r (carriage return), \\b (backspace), etc.\n\
         \n\
         Fix: Use FORWARD SLASHES in all paths inside node -e:\n\
         \n\
            readFileSync('C:/tmp/file.json')       // works on Windows\n\
            readFileSync('C:\\\\tmp\\\\file.json')  // broken: \\t = tab\n\
         \n\
         Or pass the path as a CLI argument:\n\
         \n\
            node -e \"...readFileSync(process.argv[1])...\" \"C:\\tmp\\file.json\"";

fn script_path_message() -> (r: String)
    ensures
        r@ == SCRIPT_PATH_MESSAGE@,
{
    SCRIPT_PATH_MESSAGE.to_owned()
}

pub const UNQUOTED_PATH_MESSAGE: &'static str = "BLOCKED: Unquoted Windows path — bash will eat the backslashes.\n\
         \n\
         In bash, an unquoted backslash escapes the next character:\n\
         C:\\src\\project becomes C:srcproject (all separators lost).\n\
         \n\
         Fix: Use forward slashes (preferred) or quote the path:\n\
         \n\
             ls C:/src/project          (forward slashes — always works)\n\
             ls \"C:\\src\\project\"       (double-quoted — backslashes preserved)\n\
             ls 'C:\\src\\project'       (single-quoted — backslashes preserved)";

fn unquoted_path_message() -> (r: String)
    ensures
        r@ == UNQUOTED_PATH_MESSAGE@,
{
    UNQUOTED_PATH_MESSAGE.to_owned()
}

/// Device path `k` is the first, in the fixed order, that the command holds,
/// and `i` is where it first stands.
pub open spec fn device_found(s: Seq<u8>, k: int, i: int) -> bool {
    &&& 0 <= k < 3
    &&& forall|m: int| 0 <= m < k ==> !contains(s, #[trigger] device_path(m))
    &&& occurs_at(s, device_path(k), i)
    &&& forall|j: int| 0 <= j < i ==> !occurs_at(s, device_path(k), j)
}

/// Which device path an inline script names, and where.
pub fn find_device_hazard(s: &[u8]) -> (r: Option<(usize, usize)>)
    ensures
        match r {
            Some((k, i)) => has_eval_marker(s@) && device_found(s@, k as int, i as int),
            None => !device_hazard(s@),
        },
{
    let pos = match eval_marker_position(s) {
        None => return None,
        Some(pos) => pos,
    };
    proof {
        lemma_eval_pos_has_marker(s@, pos as int);
    }
    let mut k: usize = 0;
    while k < 3
        invariant
            k <= 3,
            has_eval_marker(s@),
            forall|m: int| 0 <= m < k ==> !contains(s@, #[trigger] device_path(m)),
        decreases 3 - k,
    {
        let dev = device_path_bytes(k);
        if let Some(i) = find_bytes(s, dev.as_slice()) {
            return Some((k, i));
        }
        k += 1;
    }
    None
}

/// Detects `/dev/stdin`, `/dev/stdout` or `/dev/stderr` in a command that runs
/// an inline node script: Node resolves them to nonexistent `C:\dev\...` paths.
pub fn check_dev_stdin(command: &str) -> (r: Option<String>)
    ensures
        match r {
            Some(m) => device_hazard(command.spec_bytes()) && exists|k: int, i: int|
                device_found(command.spec_bytes(), k, i) && m@ == device_message_text(k),
            None => !device_hazard(command.spec_bytes()),
        },
{
    match find_device_hazard(command.as_bytes()) {
        Some((k, i)) => {
            assert(occurs_at(command.spec_bytes(), device_path(k as int), i as int));
            Some(device_message(k))
        },
        None => None,
    }
}

/// Where the first trailing backslash escapes the closing quote of a
/// double-quoted drive path.
pub fn find_quote_collision(s: &[u8]) -> (r: Option<usize>)
    ensures
        match r {
            Some(j) => quote_collision_at(s@, j as int) && forall|m: int|
                0 <= m < j ==> !quote_collision_at(s@, m),
            None => !quote_collision(s@),
        },
{
    let mut st = ScanState { quote: Quote::Unquoted, pending_escape: false };
    let mut drive = false;
    let mut j: usize = 0;
    while j < s.len()
        invariant
            j <= s@.len(),
            st == state_before(s@, j as int),
            drive == drive_in_dq_region(s@, j as int),
            forall|m: int| 0 <= m < j ==> !quote_collision_at(s@, m),
        decreases s@.len() - j,
    {
        if s[j] == BACKSLASH && j + 1 < s.len() && s[j + 1] == DOUBLE_QUOTE && st.quote
            == Quote::DoubleQuoted && !st.pending_escape && drive && (j + 2 >= s.len()
            || ends_token(s[j + 2])) {
            return Some(j);
        }
        let next = step(st, s[j]);
        drive = next.quote == Quote::DoubleQuoted && ((is_anchor(s, j) && st.quote
            == Quote::DoubleQuoted) || drive);
        st = next;
        j += 1;
    }
    None
}

/// Detects `"C:\some\path\"`, where the trailing `\"` escapes the closing
/// quote in bash and leaves the string unterminated.
pub fn check_trailing_backslash_quote(command: &str) -> (r: Option<String>)
    ensures
        match r {
            Some(m) => quote_collision(command.spec_bytes()) && m@ == TRAILING_QUOTE_MESSAGE@,
            None => !quote_collision(command.spec_bytes()),
        },
{
    match find_quote_collision(command.as_bytes()) {
        Some(_) => Some(trailing_quote_message()),
        None => None,
    }
}

/// Whitespace or a command operator.
fn ends_token(b: u8) -> (r: bool)
    ensures
        r == (b == 32 || b == 9 || b == 10 || b == 59 || b == 124 || b == 38 || b == 62),
{
    b == 32 || b == 9 || b == 10 || b == 59 || b == 124 || b == 38 || b == 62
}

/// Where the earliest inline-script marker of any kind starts.
pub fn earliest_marker(s: &[u8]) -> (r: Option<usize>)
    ensures
        match r {
            Some(e) => marker_by(s@, e as int) && forall|b: int| b < e ==> !marker_by(s@, b),
            None => !has_eval_marker(s@),
        },
{
    let mut best: Option<usize> = None;
    let mut k: usize = 0;
    while k < 4
        invariant
            k <= 4,
            match best {
                Some(e) => {
                    &&& exists|m: int| 0 <= m < k && #[trigger] occurs_at(s@, eval_marker(m), e as int)
                    &&& forall|m: int, j: int|
                        0 <= m < k && j < e ==> !#[trigger] occurs_at(s@, eval_marker(m), j)
                },
                None => forall|m: int| 0 <= m < k ==> !contains(s@, #[trigger] eval_marker(m)),
            },
        decreases 4 - k,
    {
        let pat = eval_marker_bytes(k);
        match find_bytes(s, pat.as_slice()) {
            Some(i) => {
                match best {
                    Some(e) => {
                        if i < e {
                            best = Some(i);
                        }
                    },
                    None => {
                        best = Some(i);
                    },
                }
            },
            None => {},
        }
        proof {
            let kk = k as int;
            match best {
                Some(e) => {
                    assert forall|m: int, j: int|
                        0 <= m <= kk && j < e implies !#[trigger] occurs_at(s@, eval_marker(m), j) by {
                        if m < kk && j >= 0 {
                            assert(!contains(s@, eval_marker(m)) || j < e);
                        }
                    }
                },
                None => {},
            }
        }
        k += 1;
    }
    match best {
        Some(e) => {
            assert forall|b: int| b < e implies !marker_by(s@, b) by {
                if marker_by(s@, b) {
                    let (i, m) = choose|i: int, m: int|
                        0 <= m < 4 && i <= b && #[trigger] occurs_at(s@, eval_marker(m), i);
                    assert(!occurs_at(s@, eval_marker(m), i));
                }
            }
        },
        None => {},
    }
    best
}

/// Where the first drive path with backslashes stands after an inline-script marker.
pub fn find_script_path(s: &[u8]) -> (r: Option<usize>)
    ensures
        match r {
            Some(a) => {
                &&& script_path_at(s@, a as int)
                &&& marker_by(s@, a as int)
                &&& forall|b: int| b < a && marker_by(s@, b) ==> !script_path_at(s@, b)
            },
            None => !script_hazard(s@),
        },
{
    let e = match earliest_marker(s) {
        None => {
            assert forall|b: int| !marker_by(s@, b) by {
                if marker_by(s@, b) {
                    let (i, m) = choose|i: int, m: int|
                        0 <= m < 4 && i <= b && #[trigger] occurs_at(s@, eval_marker(m), i);
                    assert(contains(s@, eval_marker(m)));
                }
            }
            return None;
        },
        Some(e) => e,
    };
    let mut a = e;
    while a < s.len()
        invariant
            e <= a,
            marker_by(s@, e as int),
            forall|b: int| b < e ==> !marker_by(s@, b),
            forall|b: int| e <= b < a ==> !script_path_at(s@, b),
        decreases s@.len() - a,
    {
        if is_anchor(s, a) {
            let e2 = separator_end(s, a + 2);
            if e2 < s.len() && is_alnum(s[e2]) {
                assert(marker_by(s@, a as int)) by {
                    let (i, m) = choose|i: int, m: int|
                        0 <= m < 4 && i <= e && #[trigger] occurs_at(s@, eval_marker(m), i);
                }
                return Some(a);
            }
        }
        a += 1;
    }
    None
}

/// Detects drive paths with backslashes in `node -e` / `node --eval` code,
/// where JavaScript reads `\t`, `\n`, `\b` or `\r` as escapes.
pub fn check_node_eval_backslash_paths(command: &str) -> (r: Option<String>)
    ensures
        match r {
            Some(m) => script_hazard(command.spec_bytes()) && m@ == SCRIPT_PATH_MESSAGE@,
            None => !script_hazard(command.spec_bytes()),
        },
{
    match find_script_path(command.as_bytes()) {
        Some(_) => Some(script_path_message()),
        None => None,
    }
}

/// Where the first unquoted drive path whose separator bash would consume starts.
pub fn find_unquoted_loss(s: &[u8]) -> (r: Option<usize>)
    ensures
        match r {
            Some(a) => unquoted_loss_at(s@, a as int) && forall|m: int|
                0 <= m < a ==> !unquoted_loss_at(s@, m),
            None => !unquoted_loss(s@),
        },
{
    let mut st = ScanState { quote: Quote::Unquoted, pending_escape: false };
    let mut i: usize = 0;
    while i < s.len()
        invariant
            i <= s@.len(),
            st == state_before(s@, i as int),
            forall|a: int| 0 <= a < i ==> !unquoted_loss_at(s@, a),
        decreases s@.len() - i,
    {
        if st.quote == Quote::Unquoted && is_anchor(s, i) && s.len() - i > 3 && is_alnum(s[i + 3]) {
            return Some(i);
        }
        st = step(st, s[i]);
        i += 1;
    }
    None
}

/// Detects bare drive paths such as `ls C:\src\project`, whose backslashes
/// bash consumes as escapes.
pub fn check_unquoted_backslash_paths(command: &str) -> (r: Option<String>)
    ensures
        match r {
            Some(m) => unquoted_loss(command.spec_bytes()) && m@ == UNQUOTED_PATH_MESSAGE@,
            None => !unquoted_loss(command.spec_bytes()),
        },
{
    match find_unquoted_loss(command.as_bytes()) {
        Some(_) => Some(unquoted_path_message()),
        None => None,
    }
}

#[derive(Clone, Copy, Debug, PartialEq, Eq, Structural)]
pub enum HazardKind {
    SpecialDeviceAlias,
    TrailingQuoteCollision,
    InlineScriptEscape,
    UnquotedBackslashLoss,
}

/// The first hazard of the command, in the fixed order of checks.
pub open spec fn spec_classify(s: Seq<u8>) -> Option<HazardKind> {
    if device_hazard(s) {
        Some(HazardKind::SpecialDeviceAlias)
    } else if quote_collision(s) {
        Some(HazardKind::TrailingQuoteCollision)
    } else if script_hazard(s) {
        Some(HazardKind::InlineScriptEscape)
    } else if unquoted_loss(s) {
        Some(HazardKind::UnquotedBackslashLoss)
    } else {
        None
    }
}

/// `offset` is where the first match of a hazard of this kind stands: the
/// device path, the escaping backslash, or the drive letter.
pub open spec fn finding_at(s: Seq<u8>, kind: HazardKind, offset: int) -> bool {
    match kind {
        HazardKind::SpecialDeviceAlias => has_eval_marker(s) && exists|k: int|
            device_found(s, k, offset),
        HazardKind::TrailingQuoteCollision => quote_collision_at(s, offset) && forall|m: int|
            0 <= m < offset ==> !quote_collision_at(s, m),
        HazardKind::InlineScriptEscape => {
            &&& script_path_at(s, offset)
            &&& marker_by(s, offset)
            &&& forall|b: int| b < offset && marker_by(s, b) ==> !script_path_at(s, b)
        },
        HazardKind::UnquotedBackslashLoss => unquoted_loss_at(s, offset) && forall|m: int|
            0 <= m < offset ==> !unquoted_loss_at(s, m),
    }
}

/// The message reported for a hazard of this kind at `offset`.
pub open spec fn message_of(s: Seq<u8>, kind: HazardKind, offset: int, m: Seq<char>) -> bool {
    match kind {
        HazardKind::SpecialDeviceAlias => exists|k: int|
            device_found(s, k, offset) && m == device_message_text(k),
        HazardKind::TrailingQuoteCollision => m == TRAILING_QUOTE_MESSAGE@,
        HazardKind::InlineScriptEscape => m == SCRIPT_PATH_MESSAGE@,
        HazardKind::UnquotedBackslashLoss => m == UNQUOTED_PATH_MESSAGE@,
    }
}

/// A hazard, where it stands, and the explanation shown to whoever wrote the command.
pub struct HazardFinding {
    pub kind: HazardKind,
    pub offset: usize,
    pub message: String,
}

/// Runs the checks in order and reports the first hazard found.
pub fn classify(command: &str) -> (r: Option<HazardFinding>)
    ensures
        match r {
            Some(f) => {
                &&& spec_classify(command.spec_bytes()) == Some(f.kind)
                &&& finding_at(command.spec_bytes(), f.kind, f.offset as int)
                &&& message_of(command.spec_bytes(), f.kind, f.offset as int, f.message@)
            },
            None => spec_classify(command.spec_bytes()) is None,
        },
{
    let s = command.as_bytes();
    if let Some((k, i)) = find_device_hazard(s) {
        assert(occurs_at(s@, device_path(k as int), i as int));
        let message = device_message(k);
        return Some(HazardFinding { kind: HazardKind::SpecialDeviceAlias, offset: i, message });
    }
    if let Some(j) = find_quote_collision(s) {
        let message = trailing_quote_message();
        return Some(HazardFinding { kind: HazardKind::TrailingQuoteCollision, offset: j, message });
    }
    if let Some(a) = find_script_path(s) {
        let message = script_path_message();
        return Some(HazardFinding { kind: HazardKind::InlineScriptEscape, offset: a, message });
    }
    if let Some(a) = find_unquoted_loss(s) {
        let message = unquoted_path_message();
        return Some(HazardFinding { kind: HazardKind::UnquotedBackslashLoss, offset: a, message });
    }
    None
}

} // verus!
