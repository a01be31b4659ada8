//! From the name of a program to the file that is loaded.

use vstd::prelude::*;

use crate::errno::Errno;
use crate::process::registry::Entry;
use crate::process::task::exec::{
    adjusted_args, any_starts, counts, ends_with, is_script, line_argument, line_break,
    line_interpreter, mac_text, name_bytes, parts_from, script_args, script_line, starts_with,
    text_place, texts_of, trim_end, trim_start, trimmed, walk_error, with_defaults, word_end,
    ExecIds, WalkStep,
};
use crate::process::task::exec_run::{
    after_open, file_opened, ExecAction, ExecRun, OpenEvent, OpenedFile,
};
use crate::process::task::exec_start::{siblings_gone, thread_taken_over};
use crate::process::task::tcb::TaskStruct;
use vstd::string::StringSliceAdditionalSpecFns;

verus! {

/// A byte that parts words: 32 or 9, and 13 at the end of a line.
pub open spec fn parts_words(b: u8, line_end: bool) -> bool {
    b == 32 || b == 9 || (line_end && b == 13)
}

/// Text that is cut at its front starts with no blank, and lacks nothing but blanks.
proof fn lemma_trim_start(s: Seq<u8>, line_end: bool)
    ensures
        trim_start(s, line_end).len() <= s.len(),
        ({
            let n = s.len() - trim_start(s, line_end).len();
            &&& trim_start(s, line_end) == s.subrange(n, s.len() as int)
            &&& forall|i: int| 0 <= i < n ==> parts_words(#[trigger] s[i], line_end)
        }),
        trim_start(s, line_end).len() > 0 ==> !parts_words(trim_start(s, line_end)[0], line_end),
    decreases s.len(),
{
    if s.len() > 0 && parts_words(s[0], line_end) {
        let rest = s.skip(1);
        lemma_trim_start(rest, line_end);
        let t = trim_start(rest, line_end);
        let n = s.len() - t.len();
        assert(t =~= s.subrange(n, s.len() as int));
        assert forall|i: int| 0 <= i < n implies parts_words(#[trigger] s[i], line_end) by {
            if i > 0 {
                assert(rest[i - 1] == s[i]);
            }
        }
    } else {
        assert(s.subrange(0, s.len() as int) =~= s);
    }
}

/// Text that is cut at its end ends with no blank, and lacks nothing but blanks.
proof fn lemma_trim_end(s: Seq<u8>, line_end: bool)
    ensures
        trim_end(s, line_end).len() <= s.len(),
        trim_end(s, line_end) == s.subrange(0, trim_end(s, line_end).len() as int),
        forall|i: int|
            trim_end(s, line_end).len() <= i < s.len() ==> parts_words(#[trigger] s[i], line_end),
        trim_end(s, line_end).len() > 0 ==> !parts_words(trim_end(s, line_end).last(), line_end),
    decreases s.len(),
{
    if s.len() > 0 && parts_words(s.last(), line_end) {
        let rest = s.drop_last();
        lemma_trim_end(rest, line_end);
        let t = trim_end(rest, line_end);
        assert(t =~= s.subrange(0, t.len() as int));
        assert forall|i: int| t.len() <= i < s.len() implies parts_words(
            #[trigger] s[i],
            line_end,
        ) by {
            if i < rest.len() {
                assert(rest[i] == s[i]);
            }
        }
    } else {
        assert(s.subrange(0, s.len() as int) =~= s);
    }
}

/// Text without the blanks around it: it neither starts nor ends with one, stands in the text as
/// it is, and only blanks stand around it.
pub proof fn law_text_without_blanks(s: Seq<u8>, line_end: bool)
    ensures
        ({
            let t = trimmed(s, line_end);
            &&& t.len() > 0 ==> !parts_words(t[0], line_end) && !parts_words(t.last(), line_end)
            &&& exists|a: int, b: int|
                0 <= a <= b <= s.len() && t == #[trigger] s.subrange(a, b) && (forall|i: int|
                    0 <= i < a ==> parts_words(#[trigger] s[i], line_end)) && (forall|i: int|
                    b <= i < s.len() ==> parts_words(#[trigger] s[i], line_end))
        }),
{
    let u = trim_start(s, line_end);
    lemma_trim_start(s, line_end);
    lemma_trim_end(u, line_end);
    let t = trim_end(u, line_end);
    let a = s.len() - u.len();
    let b = a + t.len();
    assert(t =~= s.subrange(a, b));
    if t.len() > 0 {
        assert(t[0] == u[0]);
    }
    assert forall|i: int| b <= i < s.len() implies parts_words(#[trigger] s[i], line_end) by {
        assert(u[i - a] == s[i]);
    }
}

/// Where the first line break of a stretch is.
proof fn lemma_line_break(s: Seq<u8>, i: int, end: int)
    requires
        0 <= i,
        end <= s.len(),
    ensures
        match line_break(s, i, end) {
            Some(k) => i <= k < end && s[k] == 10 && forall|j: int|
                i <= j < k ==> #[trigger] s[j] != 10,
            None => forall|j: int| i <= j < end ==> #[trigger] s[j] != 10,
        },
    decreases end - i,
{
    if i < end {
        lemma_line_break(s, i + 1, end);
    }
}

/// A file is a script where it starts with the bytes 35 and 33. What it names stands on the rest
/// of its first line, which ends within 256 bytes.
pub proof fn law_line_of_a_script(data: Seq<u8>)
    ensures
        is_script(data) <==> data.len() >= 2 && data[0] == 35 && data[1] == 33,
        script_line(data) matches Some(line) ==> {
            &&& line.len() > 0
            &&& exists|k: int|
                2 <= k < 256 && k < data.len() && #[trigger] data[k] == 10 && line == trimmed(
                    data.subrange(2, k),
                    true,
                ) && forall|j: int| 2 <= j < k ==> #[trigger] data[j] != 10
        },
        (forall|j: int| 2 <= j < 256 && j < data.len() ==> #[trigger] data[j] != 10)
            ==> script_line(data) is None,
{
    let end = if data.len() < 256 {
        data.len() as int
    } else {
        256
    };
    lemma_line_break(data, 2, end);
    if script_line(data) is Some {
        let k = line_break(data, 2, end)->Some_0;
        assert(data[k] == 10);
    }
}

/// Where a word ends.
proof fn lemma_word_end(s: Seq<u8>, i: int)
    requires
        0 <= i <= s.len(),
    ensures
        i <= word_end(s, i) <= s.len(),
        forall|j: int| i <= j < word_end(s, i) ==> #[trigger] s[j] != 32 && s[j] != 9,
        word_end(s, i) < s.len() ==> s[word_end(s, i)] == 32 || s[word_end(s, i)] == 9,
    decreases s.len() - i,
{
    if i < s.len() {
        lemma_word_end(s, i + 1);
    }
}

/// The interpreter is the first word of the line, and its argument is all that follows, without
/// the blanks around it.
pub proof fn law_words_of_the_line(line: Seq<u8>)
    ensures
        ({
            let word = line_interpreter(line);
            &&& word.len() <= line.len()
            &&& word == line.subrange(0, word.len() as int)
            &&& forall|j: int| 0 <= j < word.len() ==> #[trigger] word[j] != 32 && word[j] != 9
            &&& word.len() < line.len() ==> line[word.len() as int] == 32 || line[word.len() as int]
                == 9
            &&& line_argument(line) == trimmed(
                line.subrange(word.len() as int, line.len() as int),
                false,
            )
        }),
{
    lemma_word_end(line, 0);
    let n = word_end(line, 0);
    assert(line.take(n) =~= line.subrange(0, n));
    assert(line.skip(n) =~= line.subrange(n, line.len() as int));
}

/// A script is run by its interpreter, which gets its own name, the argument of the line, the path
/// of the script, and the arguments of the script but for its name, in this order.
pub proof fn law_arguments_of_a_script(
    interpreter: Seq<u8>,
    argument: Option<Seq<u8>>,
    path: Seq<u8>,
    args: Seq<Seq<u8>>,
)
    ensures
        ({
            let all = script_args(interpreter, argument, path, args);
            let at: int = if argument is Some {
                2
            } else {
                1
            };
            &&& all[0] == interpreter
            &&& argument matches Some(text) ==> all[1] == text
            &&& all[at] == path
            &&& args.len() == 0 ==> all.len() == at + 1
            &&& args.len() > 0 ==> all.len() == at + args.len()
            &&& forall|i: int| 1 <= i < args.len() ==> all[at + i] == #[trigger] args[i]
        }),
{
}

/// An opened file that is a script leads to its interpreter, one whose name ends like a script's
/// to the usual one; a program is loaded, with its arguments, and nothing else can be run. What
/// an interpreter is must be a program.
pub proof fn law_opened_file(before: ExecRun, after: ExecRun, file: OpenedFile, action: ExecAction)
    requires
        after_open(before, after, file, action),
    ensures
        ({
            let data = file.data@;
            let program = data.len() >= 4 && data[0] == 127 && data[1] == 69 && data[2] == 76
                && data[3] == 70;
            let marked = data.len() >= 2 && data[0] == 35 && data[1] == 33;
            let named = ends_with(file.name@, ".sh".spec_bytes());
            &&& before.scripted && program || !before.scripted && program && !named ==> {
                action matches ExecAction::Load(at, bytes, args) && at == file.full_path && bytes
                    == file.data && args@ == before.args@
            }
            &&& before.scripted && !program || !before.scripted && !program && !marked && !named
                ==> action == ExecAction::Fail(Errno::ENOEXEC)
            &&& !before.scripted && marked && script_line(data) is None ==> action
                == ExecAction::Fail(Errno::ENOEXEC)
            &&& !before.scripted && marked && script_line(data) is Some ==> {
                let line = script_line(data)->Some_0;
                &&& action matches ExecAction::Open(next) && next@ == line_interpreter(line)
                &&& after.scripted
                &&& after.args@.len() >= 2
                &&& texts_of(after.args@)[0] == line_interpreter(line)
                &&& line_argument(line).len() > 0 ==> texts_of(after.args@)[1] == line_argument(
                    line,
                ) && texts_of(after.args@)[2] == before.path@
                &&& line_argument(line).len() == 0 ==> texts_of(after.args@)[1] == before.path@
            }
            &&& !before.scripted && !marked && named ==> {
                &&& action matches ExecAction::Open(next) && next@ == "/musl/busybox".spec_bytes()
                &&& after.scripted
                &&& texts_of(after.args@)[0] == "/musl/busybox".spec_bytes()
                &&& texts_of(after.args@)[1] == "sh".spec_bytes()
                &&& texts_of(after.args@)[2] == before.path@
            }
        }),
{
    let data = file.data@;
    let texts = texts_of(before.args@);
    let path = before.path@;
    if script_line(data) is Some {
        let line = script_line(data)->Some_0;
        let word = line_interpreter(line);
        law_arguments_of_a_script(word, None, path, texts);
        law_arguments_of_a_script(word, Some(line_argument(line)), path, texts);
    }
    let usual = "/musl/busybox".spec_bytes();
    law_arguments_of_a_script(usual, Some("sh".spec_bytes()), path, texts);
    assert(texts_of(after.args@).len() == after.args@.len());
}

/// The name of a thread is the first nine bytes of the program's name; zeros follow.
pub proof fn law_name_of_a_thread(name: Seq<u8>, i: int)
    requires
        0 <= i < 10,
    ensures
        name_bytes(name).len() == 10,
        i < 9 && i < name.len() ==> name_bytes(name)[i] == name[i],
        i == 9 || i >= name.len() ==> name_bytes(name)[i] == 0,
{
}

/// No setting is lost, and settings are added only at the end and only where none of their kind
/// is there.
pub proof fn law_settings_are_kept(envs: Seq<Seq<u8>>, mac: Seq<u8>, k: int)
    requires
        0 <= k < envs.len(),
    ensures
        with_defaults(envs, mac).len() >= envs.len(),
        with_defaults(envs, mac)[k] == envs[k],
        with_defaults(envs, mac).len() <= envs.len() + 8,
{
}

/// A text is one of those with a front.
pub open spec fn one_starts(texts: Seq<Seq<u8>>, front: Seq<u8>) -> bool {
    exists|i: int|
        0 <= i < texts.len() && front.len() <= (#[trigger] texts[i]).len() && texts[i].subrange(
            0,
            front.len() as int,
        ) == front
}

/// The two ways to ask for a front agree.
proof fn lemma_starts(texts: Seq<Seq<u8>>, front: Seq<u8>)
    ensures
        any_starts(texts, front) == one_starts(texts, front),
{
    assert forall|i: int| 0 <= i < texts.len() implies starts_with(#[trigger] texts[i], front) == (
    front.len() <= texts[i].len() && texts[i].subrange(0, front.len() as int) == front) by {
        if front.len() <= texts[i].len() {
            assert(texts[i].take(front.len() as int) =~= texts[i].subrange(0, front.len() as int));
        }
    }
    if any_starts(texts, front) {
        let i = choose|i: int| 0 <= i < texts.len() && starts_with(#[trigger] texts[i], front);
        assert(front.len() <= texts[i].len());
    }
    if one_starts(texts, front) {
        let i = choose|i: int|
            0 <= i < texts.len() && front.len() <= (#[trigger] texts[i]).len()
                && texts[i].subrange(0, front.len() as int) == front;
        assert(starts_with(texts[i], front));
    }
}

/// Which settings are added: a limit, where the program is given none; a path, a home and a
/// terminal, where it is given no path; and the network as it is, where it is told nothing of it.
pub proof fn law_settings_that_are_added(envs: Seq<Seq<u8>>, mac: Seq<u8>)
    ensures
        ({
            let all = with_defaults(envs, mac);
            let n = envs.len() as int;
            let a: int = if one_starts(envs, "ENOUGH=".spec_bytes()) {
                0
            } else {
                1
            };
            let b: int = if one_starts(envs, "PATH=".spec_bytes()) {
                0
            } else {
                3
            };
            let c: int = if one_starts(envs, "LHOST_HWADDRS=".spec_bytes()) {
                0
            } else {
                4
            };
            &&& all.len() == n + a + b + c
            &&& a > 0 ==> all[n] == "ENOUGH=5000".spec_bytes()
            &&& b > 0 ==> {
                &&& all[n + a]
                    == "PATH=/bin:/sbin:/usr/bin:/usr/sbin:/musl:/musl/ltp/testcases/bin".spec_bytes()
                &&& all[n + a + 1] == "HOME=/".spec_bytes()
                &&& all[n + a + 2] == "TERM=linux".spec_bytes()
            }
            &&& c > 0 ==> {
                &&& all[n + a + b] == "LHOST_HWADDRS=".spec_bytes() + mac_text(mac)
                &&& all[n + a + b + 1] == "RHOST_HWADDRS=00:11:22:33:44:66".spec_bytes()
                &&& all[n + a + b + 2] == "LHOST_IFACES=eth0".spec_bytes()
                &&& all[n + a + b + 3] == "RHOST_IFACES=eth0".spec_bytes()
            }
        }),
{
    lemma_starts(envs, "ENOUGH=".spec_bytes());
    lemma_starts(envs, "PATH=".spec_bytes());
    lemma_starts(envs, "LHOST_HWADDRS=".spec_bytes());
}

/// A hardware address is told in hex digits, low ones as letters, with a colon after each byte but
/// the last.
pub proof fn law_hardware_address(mac: Seq<u8>, k: int)
    requires
        mac.len() == 6,
        0 <= k < 6,
    ensures
        ({
            let text = mac_text(mac);
            let high = mac[k] as int / 16;
            let low = mac[k] as int % 16;
            &&& text.len() == 17
            &&& k < 5 ==> text[3 * k + 2] == 58
            &&& high < 10 ==> text[3 * k] == 48 + high
            &&& high >= 10 ==> text[3 * k] == 97 + (high - 10)
            &&& low < 10 ==> text[3 * k + 1] == 48 + low
            &&& low >= 10 ==> text[3 * k + 1] == 97 + (low - 10)
        }),
{
    assert((3 * k) / 3 == k && (3 * k + 1) / 3 == k);
    assert((3 * k) % 3 == 0 && (3 * k + 1) % 3 == 1 && (3 * k + 2) % 3 == 2);
}

/// Where a text is, first.
proof fn lemma_text_place(texts: Seq<Seq<u8>>, text: Seq<u8>, i: int)
    requires
        0 <= i,
    ensures
        match text_place(texts, text, i) {
            Some(k) => i <= k < texts.len() && texts[k] == text,
            None => forall|k: int| i <= k < texts.len() ==> #[trigger] texts[k] != text,
        },
    decreases texts.len() - i,
{
    if i < texts.len() {
        lemma_text_place(texts, text, i + 1);
    }
}

/// Arguments are changed only for a search, and only where one of them asks for one line around:
/// that one is replaced by two, and all others stay in their order.
pub proof fn law_arguments_are_kept(path: Seq<u8>, args: Seq<Seq<u8>>)
    ensures
        (forall|k: int| 0 <= k < args.len() ==> #[trigger] args[k] != "-1".spec_bytes())
            ==> adjusted_args(path, args) == args,
        !ends_with(path, "grep".spec_bytes()) && (forall|k: int|
            0 <= k < args.len() ==> #[trigger] args[k] != "grep".spec_bytes()) ==> adjusted_args(
            path,
            args,
        ) == args,
        adjusted_args(path, args) != args ==> adjusted_args(path, args).len() == args.len() + 1
            && exists|k: int|
            0 <= k < args.len() && #[trigger] args[k] == "-1".spec_bytes() && adjusted_args(
                path,
                args,
            ) == args.subrange(0, k) + seq!["-B".spec_bytes(), "1".spec_bytes()] + args.subrange(
                k + 1,
                args.len() as int,
            ),
{
    lemma_text_place(args, "-1".spec_bytes(), 0);
    lemma_text_place(args, "grep".spec_bytes(), 0);
    if adjusted_args(path, args) != args {
        let k = text_place(args, "-1".spec_bytes(), 0)->Some_0;
        assert(args[k] == "-1".spec_bytes());
        assert(adjusted_args(path, args) =~= args.subrange(0, k) + seq![
            "-B".spec_bytes(),
            "1".spec_bytes(),
        ] + args.subrange(k + 1, args.len() as int));
    }
}

/// A path that leads through something that is neither a directory nor a link fails for that, and
/// else for the first part that is not there.
pub proof fn law_why_a_path_fails(steps: Seq<WalkStep>, end: Option<u32>, i: int, k: int)
    requires
        0 <= i <= k < steps.len(),
        !steps[k].up,
        steps[k].mode & 0o170000 != 0o040000 && steps[k].mode & 0o170000 != 0o120000
            || !steps[k].found,
        forall|j: int|
            i <= j < k ==> (#[trigger] steps[j]).up || steps[j].found && (steps[j].mode & 0o170000
                == 0o040000 || steps[j].mode & 0o170000 == 0o120000),
    ensures
        walk_error(steps, end, i) == if steps[k].mode & 0o170000 != 0o040000 && steps[k].mode
            & 0o170000 != 0o120000 {
            Errno::ENOTDIR
        } else {
            Errno::ENOENT
        },
    decreases k - i,
{
    if i < k {
        law_why_a_path_fails(steps, end, i + 1, k);
    }
}

/// A part of a path counts unless it is empty or a dot.
pub proof fn law_parts_that_count(part: Seq<u8>)
    ensures
        counts(part) <==> part.len() >= 2 || part.len() == 1 && part[0] != 46,
{
    if part.len() == 1 && part[0] == 46 {
        assert(part =~= seq![46u8]);
    }
}

/// The parts of a path are parted by slashes and have none in them; none is empty or a dot.
pub proof fn law_parts_of_a_path(path: Seq<u8>, i: int, part: Seq<u8>, k: int)
    requires
        0 <= i <= path.len(),
        forall|j: int| 0 <= j < part.len() ==> #[trigger] part[j] != 47,
        0 <= k < parts_from(path, i, part).len(),
    ensures
        forall|j: int|
            0 <= j < parts_from(path, i, part)[k].len() ==> #[trigger] parts_from(path, i, part)[k][j]
                != 47,
        parts_from(path, i, part)[k].len() > 0,
        parts_from(path, i, part)[k].len() == 1 ==> parts_from(path, i, part)[k][0] != 46,
    decreases path.len() - i,
{
    let all = parts_from(path, i, part);
    law_parts_that_count(part);
    if i >= path.len() {
        assert(all[k] == part);
    } else if path[i] == 47 {
        let rest = parts_from(path, i + 1, Seq::empty());
        if counts(part) {
            if k > 0 {
                law_parts_of_a_path(path, i + 1, Seq::empty(), k - 1);
                assert(all[k] == rest[k - 1]);
            } else {
                assert(all[0] == part);
            }
        } else {
            law_parts_of_a_path(path, i + 1, Seq::empty(), k);
        }
    } else {
        law_parts_of_a_path(path, i + 1, part.push(path[i]), k);
    }
}

/// A path without slashes is one part, and a slash before it changes nothing.
pub proof fn law_one_part(path: Seq<u8>, i: int, part: Seq<u8>)
    requires
        0 <= i <= path.len(),
        forall|j: int| i <= j < path.len() ==> #[trigger] path[j] != 47,
        part.len() + path.len() - i >= 2,
    ensures
        parts_from(path, i, part) == seq![part + path.subrange(i, path.len() as int)],
    decreases path.len() - i,
{
    if i < path.len() {
        law_one_part(path, i + 1, part.push(path[i]));
        assert(part.push(path[i]) + path.subrange(i + 1, path.len() as int) =~= part
            + path.subrange(i, path.len() as int));
    } else {
        law_parts_that_count(part);
        assert(part + path.subrange(i, path.len() as int) =~= part);
    }
}

/// A program that takes over a thread has its own memory and answers to signals, no signals, and
/// the name of its file; it is the same thread of the same process, with the same files, rights,
/// place and parent, and holds back the same signals.
pub proof fn law_thread_with_another_program(
    before: TaskStruct,
    after: TaskStruct,
    ids: ExecIds,
    path: Seq<u8>,
    args: Seq<Vec<u8>>,
    on_main_hart: bool,
    now: u64,
)
    requires
        thread_taken_over(before, after, ids, path, args, on_main_hart, now),
    ensures
        after.inner.mm == Some(ids.mm),
        after.inner.signal == ids.signal,
        after.inner.signal_hand == ids.signal_hand,
        after.inner.exe_path@ == path,
        after.inner.start_time == now,
        after.inner.clear_child_tid == 0,
        after.inner.sched.on_main_hart == on_main_hart,
        after.inner.signals.pending.signals.bits == 0,
        after.inner.signals.pending.queue@.len() == 0,
        after.inner.signals.signal_mask_backup@.len() == 0,
        after.inner.signals.trap_ctx_backup@.len() == 0,
        after.inner.signals.sigsuspend_saved_mask is None,
        after.inner.signals.term_signal is None,
        !after.inner.signals.frozen,
        after.inner.signals.blocked == before.inner.signals.blocked,
        after.inner.signals.signal_alt_stack == before.inner.signals.signal_alt_stack,
        after.pid == before.pid,
        after.tgid == before.tgid,
        after.group_leader == before.group_leader,
        after.inner.parent == before.inner.parent,
        after.inner.real_parent == before.inner.real_parent,
        after.inner.children == before.inner.children,
        after.inner.pgid == before.inner.pgid,
        after.inner.sid == before.inner.sid,
        after.inner.files == before.inner.files,
        after.inner.fs == before.inner.fs,
        after.inner.cred == before.inner.cred,
        after.inner.real_cred == before.inner.real_cred,
        after.inner.nsproxy == before.inner.nsproxy,
        after.inner.vfork_completion == before.inner.vfork_completion,
        after.inner.exit_signal == before.inner.exit_signal,
        after.inner.sched.policy == before.inner.sched.policy,
        after.inner.sched.cpus_allowed == before.inner.sched.cpus_allowed,
        args.len() == 0 ==> after.inner.comm@ == before.inner.comm@,
        forall|i: int|
            args.len() > 0 && 0 <= i < 9 && i < args[0]@.len() ==> after.inner.comm@[i]
                == #[trigger] args[0]@[i],
{
}

/// Of the threads of a process only the one that loads a program is left; threads of other
/// processes stay.
pub proof fn law_only_one_thread_is_left(
    before: Seq<Entry>,
    after: Seq<Entry>,
    gone: Seq<u64>,
    tgid: u64,
    tid: u64,
    e: Entry,
)
    requires
        siblings_gone(before, after, gone, tgid, tid),
        before.contains(e),
    ensures
        e.tgid == tgid && e.tid != tid ==> !after.contains(e) && gone.contains(e.tid),
        e.tgid != tgid || e.tid == tid ==> after.contains(e),
        !gone.contains(tid),
{
    assert(e == Entry { tid: e.tid, tgid: e.tgid });
}

/// A directory, and a file that may not be executed, is not run; a path that leads nowhere says
/// why. The path and the settings stay.
pub proof fn law_what_is_not_run(
    before: ExecRun,
    after: ExecRun,
    event: OpenEvent,
    action: ExecAction,
    i: int,
)
    requires
        file_opened(before, after, event, action),
    ensures
        after.path == before.path,
        after.envs == before.envs,
        event matches OpenEvent::Opened(file) ==> (file.mode & 0o170000 == 0o040000
            || !file.can_execute ==> action == ExecAction::Fail(Errno::EACCES) && after == before),
        event matches OpenEvent::Opened(file) ==> (file.mode & 0o170000 != 0o040000
            && file.can_execute ==> after_open(before, after, file, action)),
        event is Missing ==> action is Fail && after == before,
        event matches OpenEvent::Missing(missing) ==> (0 <= i < missing.required@.len()
            && missing.required@[i] is Some && missing.required@[i]->Some_0 & 0o170000 != 0o040000
            ==> action == ExecAction::Fail(Errno::ENOTDIR)),
        action is Open ==> after.scripted && !before.scripted,
{
    if event is Missing && 0 <= i < event->Missing_0.required@.len() {
        let r = event->Missing_0.required@;
        assert(r[i] == r[i]);
    }
}

} // verus!
