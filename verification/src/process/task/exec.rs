//! A process that starts another program: which file is run, with which arguments and
//! settings, and what stays of the process.

use vstd::prelude::*;

use super::exec_start::thread_taken_over;
use super::files::{free_place, FileDescriptorTable};
use super::tcb::TaskStruct;
use crate::errno::Errno;
use crate::mm::elf::is_utf8;
use crate::process::signal::delivery::TaskSignals;
use vstd::string::StrSliceExecFns;
use vstd::string::StringSliceAdditionalSpecFns;
use vstd::utf8::valid_utf8;

verus! {

/// A script names its interpreter within so many bytes.
pub const SHEBANG_MAX: usize = 256;

/// A byte between words; at the ends of a line, the end of a line is one too.
pub open spec fn is_blank(b: u8, line_end: bool) -> bool {
    b == 32 || b == 9 || (line_end && b == 13)
}

/// Without the blanks at the start.
pub open spec fn trim_start(s: Seq<u8>, line_end: bool) -> Seq<u8>
    decreases s.len(),
{
    if s.len() > 0 && is_blank(s[0], line_end) {
        trim_start(s.skip(1), line_end)
    } else {
        s
    }
}

/// Without the blanks at the end.
pub open spec fn trim_end(s: Seq<u8>, line_end: bool) -> Seq<u8>
    decreases s.len(),
{
    if s.len() > 0 && is_blank(s.last(), line_end) {
        trim_end(s.drop_last(), line_end)
    } else {
        s
    }
}

/// Without the blanks at both ends.
pub open spec fn trimmed(s: Seq<u8>, line_end: bool) -> Seq<u8> {
    trim_end(trim_start(s, line_end), line_end)
}

/// The place of the first blank from `i` on, or the end.
pub open spec fn word_end(s: Seq<u8>, i: int) -> int
    decreases s.len() - i,
{
    if i < 0 || i >= s.len() || is_blank(s[i], false) {
        i
    } else {
        word_end(s, i + 1)
    }
}

/// The place of the first end of a line from `i` on, before place `end`.
pub open spec fn line_break(s: Seq<u8>, i: int, end: int) -> Option<int>
    decreases end - i,
{
    if i < 0 || i >= end || i >= s.len() {
        None
    } else if s[i] == 10 {
        Some(i)
    } else {
        line_break(s, i + 1, end)
    }
}

/// The file starts with the mark of a script.
pub open spec fn is_script(data: Seq<u8>) -> bool {
    data.len() >= 2 && data[0] == 35 && data[1] == 33
}

/// The line that names the interpreter, where there is one.
pub open spec fn script_line(data: Seq<u8>) -> Option<Seq<u8>> {
    let end = if data.len() < SHEBANG_MAX {
        data.len() as int
    } else {
        SHEBANG_MAX as int
    };
    match line_break(data, 2, end) {
        None => None,
        Some(k) => if valid_utf8(data.subrange(2, k)) && trimmed(
            data.subrange(2, k),
            true,
        ).len() > 0 {
            Some(trimmed(data.subrange(2, k), true))
        } else {
            None
        },
    }
}

/// The interpreter that a line names.
pub open spec fn line_interpreter(line: Seq<u8>) -> Seq<u8> {
    line.take(word_end(line, 0))
}

/// The rest of the line, which is one argument.
pub open spec fn line_argument(line: Seq<u8>) -> Seq<u8> {
    trimmed(line.skip(word_end(line, 0)), false)
}

/// An interpreter and the argument that it is given before the script.
pub struct Interpreter {
    pub path: Vec<u8>,
    pub argument: Option<Vec<u8>>,
}

/// Returns a part of bytes.
fn part(s: &Vec<u8>, from: usize, to: usize) -> (piece: Vec<u8>)
    requires
        from <= to <= s@.len(),
    ensures
        piece@ == s@.subrange(from as int, to as int),
{
    let mut piece: Vec<u8> = Vec::new();
    let mut i: usize = from;
    while i < to
        invariant
            from <= i <= to <= s@.len(),
            piece@ == s@.subrange(from as int, i as int),
        decreases to - i,
    {
        piece.push(s[i]);
        i = i + 1;
        assert(piece@ =~= s@.subrange(from as int, i as int));
    }
    piece
}

/// Returns bytes without the blanks at both ends.
fn trim(s: &Vec<u8>, line_end: bool) -> (rest: Vec<u8>)
    ensures
        rest@ == trimmed(s@, line_end),
{
    let mut from: usize = 0;
    assert(s@.skip(0) =~= s@);
    while from < s.len() && (s[from] == 32 || s[from] == 9 || (line_end && s[from] == 13))
        invariant
            from <= s@.len(),
            trim_start(s@, line_end) == trim_start(s@.skip(from as int), line_end),
        decreases s@.len() - from,
    {
        assert(s@.skip(from as int).skip(1) =~= s@.skip(from + 1));
        from = from + 1;
    }
    let ghost kept = s@.skip(from as int);
    assert(trim_start(s@, line_end) == kept);
    let mut to: usize = s.len();
    assert(s@.subrange(from as int, to as int) =~= kept);
    while to > from && (s[to - 1] == 32 || s[to - 1] == 9 || (line_end && s[to - 1] == 13))
        invariant
            from <= to <= s@.len(),
            trim_end(kept, line_end) == trim_end(s@.subrange(from as int, to as int), line_end),
        decreases to - from,
    {
        assert(s@.subrange(from as int, to as int).drop_last() =~= s@.subrange(
            from as int,
            to - 1,
        ));
        to = to - 1;
    }
    part(s, from, to)
}

/// Reads which interpreter a script asks for; a file that is no script asks for none.
pub fn parse_shebang(data: &Vec<u8>) -> (result: Result<Option<Interpreter>, Errno>)
    ensures
        if !is_script(data@) {
            result matches Ok(None)
        } else {
            match script_line(data@) {
                None => result matches Err(Errno::ENOEXEC),
                Some(line) => {
                    &&& result matches Ok(Some(interpreter)) && interpreter.path@
                        == line_interpreter(line) && (if line_argument(line).len() == 0 {
                        interpreter.argument is None
                    } else {
                        interpreter.argument matches Some(argument) && argument@ == line_argument(
                            line,
                        )
                    })
                },
            }
        },
{
    if data.len() < 2 || data[0] != 35 || data[1] != 33 {
        return Ok(None);
    }
    let end: usize = if data.len() < SHEBANG_MAX {
        data.len()
    } else {
        SHEBANG_MAX
    };
    let mut k: usize = 2;
    while k < end && data[k] != 10
        invariant
            2 <= k,
            k <= end || k == 2,
            end <= data@.len(),
            line_break(data@, 2, end as int) == line_break(data@, k as int, end as int),
        decreases end - k,
    {
        k = k + 1;
    }
    if k >= end {
        return Err(Errno::ENOEXEC);
    }
    let raw = part(data, 2, k);
    if !is_utf8(&raw) {
        return Err(Errno::ENOEXEC);
    }
    let line = trim(&raw, true);
    if line.len() == 0 {
        return Err(Errno::ENOEXEC);
    }
    let mut word: usize = 0;
    while word < line.len() && line[word] != 32 && line[word] != 9
        invariant
            word <= line@.len(),
            word_end(line@, 0) == word_end(line@, word as int),
        decreases line@.len() - word,
    {
        word = word + 1;
    }
    let path = part(&line, 0, word);
    let rest = part(&line, word, line.len());
    assert(line@.subrange(0, word as int) =~= line@.take(word as int));
    assert(line@.subrange(word as int, line@.len() as int) =~= line@.skip(word as int));
    let argument = trim(&rest, false);
    Ok(
        Some(
            Interpreter {
                path,
                argument: if argument.len() == 0 {
                    None
                } else {
                    Some(argument)
                },
            },
        ),
    )
}

/// One text starts with another.
pub open spec fn starts_with(s: Seq<u8>, prefix: Seq<u8>) -> bool {
    prefix.len() <= s.len() && s.take(prefix.len() as int) == prefix
}

/// One text ends with another.
pub open spec fn ends_with(s: Seq<u8>, suffix: Seq<u8>) -> bool {
    suffix.len() <= s.len() && s.skip(s.len() - suffix.len()) == suffix
}

/// One of the texts starts with another.
pub open spec fn any_starts(texts: Seq<Seq<u8>>, prefix: Seq<u8>) -> bool {
    exists|i: int| 0 <= i < texts.len() && starts_with(#[trigger] texts[i], prefix)
}

/// The texts of vectors.
pub open spec fn texts_of(v: Seq<Vec<u8>>) -> Seq<Seq<u8>> {
    v.map_values(|text: Vec<u8>| text@)
}

/// Tells whether a part of a text, from a place on, is another text.
fn matches_at(s: &Vec<u8>, at: usize, other: &Vec<u8>) -> (yes: bool)
    requires
        at + other@.len() <= s@.len(),
    ensures
        yes == (s@.subrange(at as int, at + other@.len()) == other@),
{
    let mut i: usize = 0;
    let n: usize = other.len();
    let m: usize = s.len();
    assert(n == other@.len() && m == s@.len());
    while i < n
        invariant
            i <= n,
            n == other@.len(),
            at + n <= s@.len() <= usize::MAX,
            forall|j: int| 0 <= j < i ==> s@[at + j] == #[trigger] other@[j],
        decreases n - i,
    {
        if s[at + i] != other[i] {
            assert(s@.subrange(at as int, at + n)[i as int] == s@[at + i]);
            return false;
        }
        i = i + 1;
    }
    assert(s@.subrange(at as int, at + n) =~= other@);
    true
}

/// Tells whether one text starts with another.
fn has_prefix(s: &Vec<u8>, prefix: &Vec<u8>) -> (yes: bool)
    ensures
        yes == starts_with(s@, prefix@),
{
    if prefix.len() > s.len() {
        return false;
    }
    assert(s@.subrange(0, prefix@.len() as int) =~= s@.take(prefix@.len() as int));
    matches_at(s, 0, prefix)
}

/// Tells whether one text ends with another.
pub fn has_suffix(s: &Vec<u8>, suffix: &Vec<u8>) -> (yes: bool)
    ensures
        yes == ends_with(s@, suffix@),
{
    if suffix.len() > s.len() {
        return false;
    }
    let at: usize = s.len() - suffix.len();
    assert(s@.subrange(at as int, at + suffix@.len()) =~= s@.skip(at as int));
    matches_at(s, at, suffix)
}

/// Tells whether two texts are the same.
fn same_text(a: &Vec<u8>, b: &Vec<u8>) -> (yes: bool)
    ensures
        yes == (a@ == b@),
{
    if a.len() != b.len() {
        return false;
    }
    assert(a@.subrange(0, b@.len() as int) =~= a@);
    matches_at(a, 0, b)
}

/// Tells whether one of the texts starts with another.
fn any_has_prefix(texts: &Vec<Vec<u8>>, prefix: &Vec<u8>) -> (yes: bool)
    ensures
        yes == any_starts(texts_of(texts@), prefix@),
{
    let mut i: usize = 0;
    while i < texts.len()
        invariant
            i <= texts@.len(),
            forall|j: int|
                0 <= j < i ==> !starts_with(#[trigger] texts_of(texts@)[j], prefix@),
        decreases texts@.len() - i,
    {
        if has_prefix(&texts[i], prefix) {
            assert(starts_with(texts_of(texts@)[i as int], prefix@));
            return true;
        }
        i = i + 1;
    }
    false
}

/// A digit of a number to the base sixteen.
pub open spec fn hex_digit(n: int) -> u8 {
    if n < 10 {
        (48 + n) as u8
    } else {
        (87 + n) as u8
    }
}

/// An address of a network card as text: six numbers of two digits with colons between.
pub open spec fn mac_text(mac: Seq<u8>) -> Seq<u8> {
    Seq::new(
        17,
        |i: int|
            if i % 3 == 2 {
                58u8
            } else if i % 3 == 0 {
                hex_digit(mac[i / 3] as int / 16)
            } else {
                hex_digit(mac[i / 3] as int % 16)
            },
    )
}

/// Returns a digit of a number to the base sixteen.
fn digit(n: u8) -> (b: u8)
    requires
        n < 16,
    ensures
        b == hex_digit(n as int),
{
    if n < 10 {
        48 + n
    } else {
        87 + n
    }
}

/// Returns an address of a network card as text.
pub fn format_mac(mac: [u8; 6]) -> (text: Vec<u8>)
    ensures
        text@ == mac_text(mac@),
{
    let mut text: Vec<u8> = Vec::new();
    let mut i: usize = 0;
    while i < 6
        invariant
            i <= 6,
            text@.len() == if i < 6 {
                3 * i as int
            } else {
                17
            },
            text@ == mac_text(mac@).take(text@.len() as int),
        decreases 6 - i,
    {
        text.push(digit(mac[i] / 16));
        text.push(digit(mac[i] % 16));
        if i < 5 {
            text.push(58);
        }
        i = i + 1;
        assert(text@ =~= mac_text(mac@).take(text@.len() as int));
    }
    assert(text@ =~= mac_text(mac@));
    text
}

/// The settings that a program gets besides those that it was given.
pub open spec fn with_defaults(envs: Seq<Seq<u8>>, mac: Seq<u8>) -> Seq<Seq<u8>> {
    let a = if any_starts(envs, "ENOUGH=".spec_bytes()) {
        envs
    } else {
        envs.push("ENOUGH=5000".spec_bytes())
    };
    let b = if any_starts(envs, "PATH=".spec_bytes()) {
        a
    } else {
        a.push(
            "PATH=/bin:/sbin:/usr/bin:/usr/sbin:/musl:/musl/ltp/testcases/bin".spec_bytes(),
        ).push("HOME=/".spec_bytes()).push("TERM=linux".spec_bytes())
    };
    if any_starts(envs, "LHOST_HWADDRS=".spec_bytes()) {
        b
    } else {
        b.push("LHOST_HWADDRS=".spec_bytes() + mac_text(mac)).push(
            "RHOST_HWADDRS=00:11:22:33:44:66".spec_bytes(),
        ).push("LHOST_IFACES=eth0".spec_bytes()).push("RHOST_IFACES=eth0".spec_bytes())
    }
}

/// Adds a text.
fn push_text(texts: &mut Vec<Vec<u8>>, text: Vec<u8>)
    ensures
        texts_of(final(texts)@) == texts_of(old(texts)@).push(text@),
{
    texts.push(text);
    assert(texts_of(texts@) =~= texts_of(old(texts)@).push(text@));
}

/// Adds the settings that every program gets.
pub fn default_envs(envs: &mut Vec<Vec<u8>>, mac: [u8; 6])
    ensures
        texts_of(final(envs)@) == with_defaults(texts_of(old(envs)@), mac@),
{
    let enough: bool = any_has_prefix(envs, &"ENOUGH=".as_bytes_vec());
    let path: bool = any_has_prefix(envs, &"PATH=".as_bytes_vec());
    let hwaddr: bool = any_has_prefix(envs, &"LHOST_HWADDRS=".as_bytes_vec());
    if !enough {
        push_text(envs, "ENOUGH=5000".as_bytes_vec());
    }
    if !path {
        push_text(
            envs,
            "PATH=/bin:/sbin:/usr/bin:/usr/sbin:/musl:/musl/ltp/testcases/bin".as_bytes_vec(),
        );
        push_text(envs, "HOME=/".as_bytes_vec());
        push_text(envs, "TERM=linux".as_bytes_vec());
    }
    if !hwaddr {
        let mut text = "LHOST_HWADDRS=".as_bytes_vec();
        let mut address = format_mac(mac);
        text.append(&mut address);
        push_text(envs, text);
        push_text(envs, "RHOST_HWADDRS=00:11:22:33:44:66".as_bytes_vec());
        push_text(envs, "LHOST_IFACES=eth0".as_bytes_vec());
        push_text(envs, "RHOST_IFACES=eth0".as_bytes_vec());
    }
}

/// The place of a text from `i` on.
pub open spec fn text_place(texts: Seq<Seq<u8>>, text: Seq<u8>, i: int) -> Option<int>
    decreases texts.len() - i,
{
    if i < 0 || i >= texts.len() {
        None
    } else if texts[i] == text {
        Some(i)
    } else {
        text_place(texts, text, i + 1)
    }
}

/// Finds a text.
fn find_text(texts: &Vec<Vec<u8>>, text: &Vec<u8>) -> (place: Option<usize>)
    ensures
        match place {
            None => text_place(texts_of(texts@), text@, 0) is None,
            Some(i) => text_place(texts_of(texts@), text@, 0) == Some(i as int) && i < texts@.len(),
        },
{
    let mut i: usize = 0;
    while i < texts.len()
        invariant
            i <= texts@.len(),
            text_place(texts_of(texts@), text@, 0) == text_place(
                texts_of(texts@),
                text@,
                i as int,
            ),
        decreases texts@.len() - i,
    {
        if same_text(&texts[i], text) {
            return Some(i);
        }
        i = i + 1;
    }
    None
}

/// The arguments as the program takes them: a search that asks for one line of context
/// in a short way asks for it in the long way.
pub open spec fn adjusted_args(path: Seq<u8>, args: Seq<Seq<u8>>) -> Seq<Seq<u8>> {
    let is_grep = ends_with(path, "grep".spec_bytes()) || text_place(
        args,
        "grep".spec_bytes(),
        0,
    ) is Some;
    match text_place(args, "-1".spec_bytes(), 0) {
        Some(i) => if is_grep {
            args.update(i, "-B".spec_bytes()).insert(i + 1, "1".spec_bytes())
        } else {
            args
        },
        None => args,
    }
}

/// Adjusts the arguments.
pub fn adjust_args(path: &Vec<u8>, args: &mut Vec<Vec<u8>>)
    ensures
        texts_of(final(args)@) == adjusted_args(path@, texts_of(old(args)@)),
{
    let name = "grep".as_bytes_vec();
    let is_grep: bool = has_suffix(path, &name) || find_text(args, &name).is_some();
    let short = find_text(args, &"-1".as_bytes_vec());
    if is_grep {
        if let Some(i) = short {
            let count: usize = args.len();
            assert(i < count);
            args.remove(i);
            args.insert(i, "-B".as_bytes_vec());
            args.insert(i + 1, "1".as_bytes_vec());
            assert(texts_of(args@) =~= adjusted_args(path@, texts_of(old(args)@)));
        }
    }
}

/// The file is a directory.
pub open spec fn mode_is_dir(mode: u32) -> bool {
    mode & 0o170000 == 0o040000
}

/// Tells whether a file can be run.
pub fn check_executable(mode: u32, can_execute: bool) -> (result: Result<(), Errno>)
    ensures
        result == if mode_is_dir(mode) || !can_execute {
            Err::<(), Errno>(Errno::EACCES)
        } else {
            Ok::<(), Errno>(())
        },
{
    if mode & 0o170000 == 0o040000 || !can_execute {
        Err(Errno::EACCES)
    } else {
        Ok(())
    }
}

/// The file is a program.
pub open spec fn is_program(data: Seq<u8>) -> bool {
    data.len() >= 4 && data[0] == 127 && data[1] == 69 && data[2] == 76 && data[3] == 70
}

/// Tells whether a file is a program.
pub fn check_program(data: &Vec<u8>) -> (result: Result<(), Errno>)
    ensures
        result == if is_program(data@) {
            Ok::<(), Errno>(())
        } else {
            Err::<(), Errno>(Errno::ENOEXEC)
        },
{
    if data.len() >= 4 && data[0] == 127 && data[1] == 69 && data[2] == 76 && data[3] == 70 {
        Ok(())
    } else {
        Err(Errno::ENOEXEC)
    }
}

/// What is to be done with the file that is to be run.
pub enum ExecStep {
    /// It is a program; it gets the arguments.
    Load(Vec<Vec<u8>>),
    /// It is a script; another file is to be run, with the arguments.
    Interpreter(Vec<u8>, Vec<Vec<u8>>),
}

/// The arguments of the interpreter of a script.
pub open spec fn script_args(
    interpreter: Seq<u8>,
    argument: Option<Seq<u8>>,
    path: Seq<u8>,
    args: Seq<Seq<u8>>,
) -> Seq<Seq<u8>> {
    let start = match argument {
        Some(text) => seq![interpreter, text],
        None => seq![interpreter],
    };
    start.push(path) + args.skip(
        if args.len() > 0 {
            1
        } else {
            0
        },
    )
}

/// The interpreter of a script: the one it names, or the shell where it is one by its name.
pub open spec fn chosen_interpreter(data: Seq<u8>, name: Seq<u8>) -> Option<
    (Seq<u8>, Option<Seq<u8>>),
> {
    if is_script(data) {
        match script_line(data) {
            Some(line) => Some(
                (
                    line_interpreter(line),
                    if line_argument(line).len() == 0 {
                        None
                    } else {
                        Some(line_argument(line))
                    },
                ),
            ),
            None => None,
        }
    } else if ends_with(name, ".sh".spec_bytes()) {
        Some(("/musl/busybox".spec_bytes(), Some("sh".spec_bytes())))
    } else {
        None
    }
}

/// Decides what to do with the file that is to be run.
pub fn exec_step(path: &Vec<u8>, name: &Vec<u8>, data: &Vec<u8>, args: Vec<Vec<u8>>) -> (result:
    Result<ExecStep, Errno>)
    ensures
        match chosen_interpreter(data@, name@) {
            Some((interpreter, argument)) => result matches Ok(
                ExecStep::Interpreter(file, new_args),
            ) && file@ == interpreter && texts_of(new_args@) == script_args(
                interpreter,
                argument,
                path@,
                texts_of(args@),
            ),
            None => if !is_script(data@) && is_program(data@) {
                result matches Ok(ExecStep::Load(new_args)) && new_args@ == args@
            } else {
                result matches Err(Errno::ENOEXEC)
            },
        },
{
    let found = match parse_shebang(data) {
        Err(errno) => {
            return Err(errno);
        },
        Ok(found) => found,
    };
    let by_name: bool = has_suffix(name, &".sh".as_bytes_vec());
    let interpreter = match found {
        Some(interpreter) => interpreter,
        None => if by_name {
            Interpreter {
                path: "/musl/busybox".as_bytes_vec(),
                argument: Some("sh".as_bytes_vec()),
            }
        } else {
            match check_program(data) {
                Err(errno) => {
                    return Err(errno);
                },
                Ok(_) => {
                    return Ok(ExecStep::Load(args));
                },
            }
        },
    };
    let ghost old_args = texts_of(args@);
    let ghost name_of = interpreter.path@;
    let ghost option: Option<Seq<u8>> = if interpreter.argument is Some {
        Some(interpreter.argument->Some_0@)
    } else {
        None
    };
    let mut new_args: Vec<Vec<u8>> = Vec::new();
    assert(texts_of(new_args@) =~= Seq::<Seq<u8>>::empty());
    push_text(&mut new_args, copy_text(&interpreter.path));
    if let Some(text) = interpreter.argument {
        push_text(&mut new_args, text);
    }
    push_text(&mut new_args, copy_text(path));
    let ghost start = texts_of(new_args@);
    assert(start =~= (match option {
        Some(text) => seq![name_of, text],
        None => seq![name_of],
    }).push(path@));
    let mut rest = args;
    if rest.len() > 0 {
        rest.remove(0);
        assert(texts_of(rest@) =~= old_args.skip(1));
    } else {
        assert(texts_of(rest@) =~= old_args.skip(0));
    }
    let ghost tail = rest@;
    let ghost head = new_args@;
    new_args.append(&mut rest);
    assert(new_args@ =~= head + tail);
    assert(texts_of(new_args@) =~= start + texts_of(tail));
    Ok(ExecStep::Interpreter(interpreter.path, new_args))
}

/// Returns the same text.
pub(crate) fn copy_text(text: &Vec<u8>) -> (copy: Vec<u8>)
    ensures
        copy@ == text@,
{
    let copy = part(text, 0, text.len());
    assert(text@.subrange(0, text@.len() as int) =~= text@);
    copy
}

impl FileDescriptorTable {
    /// Closes the files that another program does not get.
    pub fn close_on_exec(&mut self)
        ensures
            final(self).next_fd == old(self).next_fd,
            final(self).fds@.len() == old(self).fds@.len(),
            forall|i: int|
                0 <= i < old(self).fds@.len() ==> #[trigger] final(self).fds@[i] == if old(self).fds@[i].flags.cloexec {
                    free_place()
                } else {
                    old(self).fds@[i]
                },
    {
        let mut i: usize = 0;
        while i < self.fds.len()
            invariant
                i <= self.fds@.len(),
                self.next_fd == old(self).next_fd,
                self.fds@.len() == old(self).fds@.len(),
                forall|j: int|
                    0 <= j < i ==> #[trigger] self.fds@[j] == if old(self).fds@[j].flags.cloexec {
                        free_place()
                    } else {
                        old(self).fds@[j]
                    },
                forall|j: int|
                    i <= j < self.fds@.len() ==> #[trigger] self.fds@[j] == old(self).fds@[j],
            decreases self.fds@.len() - i,
        {
            if self.fds[i].flags.cloexec {
                self.clear_fd(i);
            }
            i = i + 1;
        }
    }
}

/// What the process of another program has of its own.
#[derive(Clone, Copy, Debug, PartialEq, Eq, Structural)]
pub struct ExecIds {
    pub mm: u64,
    pub signal: u64,
    pub signal_hand: u64,
}

/// The name of a thread: the first bytes of the name of its program, and zeros.
pub open spec fn name_bytes(name: Seq<u8>) -> Seq<u8> {
    Seq::new(
        10,
        |i: int|
            if i < 9 && i < name.len() {
                name[i]
            } else {
                0u8
            },
    )
}

/// Returns the name of a thread.
pub fn thread_name(name: &Vec<u8>) -> (comm: [u8; 10])
    ensures
        comm@ == name_bytes(name@),
{
    let mut comm: [u8; 10] = [0;10];
    let mut i: usize = 0;
    while i < 9 && i < name.len()
        invariant
            i <= 9,
            i <= name@.len(),
            forall|j: int| 0 <= j < i ==> #[trigger] comm@[j] == name@[j],
            forall|j: int| i <= j < 10 ==> #[trigger] comm@[j] == 0,
        decreases 9 - i,
    {
        comm[i] = name[i];
        i = i + 1;
    }
    assert(comm@ =~= name_bytes(name@));
    comm
}

impl TaskStruct {
    /// Makes the thread one of another program. What it had of signals is forgotten, but for
    /// those that are held back; its number, its family and its files stay.
    pub fn install_exec_image(
        &mut self,
        ids: ExecIds,
        executable_path: Vec<u8>,
        args: &Vec<Vec<u8>>,
        on_main_hart: bool,
        now: u64,
    )
        ensures
            thread_taken_over(
                *old(self),
                *final(self),
                ids,
                executable_path@,
                args@,
                on_main_hart,
                now,
            ),
    {
        let blocked = self.inner.signals.blocked;
        let alt_stack = self.inner.signals.signal_alt_stack;
        self.inner.mm = Some(ids.mm);
        self.inner.sched.on_main_hart = on_main_hart;
        self.inner.exe_path = executable_path;
        self.inner.signal = ids.signal;
        self.inner.signal_hand = ids.signal_hand;
        let mut signals = TaskSignals::new();
        signals.blocked = blocked;
        signals.signal_alt_stack = alt_stack;
        self.inner.signals = signals;
        self.inner.clear_child_tid = 0;
        self.inner.start_time = now;
        if args.len() > 0 {
            self.inner.comm = thread_name(&args[0]);
        }
    }
}

/// A part of a path on the way to a file that could not be opened.
#[derive(Clone, Copy, Debug, PartialEq, Eq, Structural)]
pub struct WalkStep {
    /// The part leads up.
    pub up: bool,
    /// The kind of the place that the part is looked for in.
    pub mode: u32,
    /// There is such a part.
    pub found: bool,
}

/// A place that a part of a path can be looked for in: a directory or a link.
pub open spec fn can_enter(mode: u32) -> bool {
    mode & 0o170000 == 0o040000 || mode & 0o170000 == 0o120000
}

/// Some part of the path that has to be a directory is something else.
pub open spec fn not_a_directory(required: Seq<Option<u32>>) -> bool {
    exists|i: int|
        0 <= i < required.len() && (#[trigger] required[i] matches Some(mode) && !mode_is_dir(mode))
}

/// What a walk from step `i` on ends with.
pub open spec fn walk_error(steps: Seq<WalkStep>, end: Option<u32>, i: int) -> Errno
    decreases steps.len() - i,
{
    if i < 0 || i >= steps.len() {
        match end {
            Some(mode) => if can_enter(mode) {
                Errno::ENOENT
            } else {
                Errno::ENOTDIR
            },
            None => Errno::ENOENT,
        }
    } else if steps[i].up {
        walk_error(steps, end, i + 1)
    } else if !can_enter(steps[i].mode) {
        Errno::ENOTDIR
    } else if !steps[i].found {
        Errno::ENOENT
    } else {
        walk_error(steps, end, i + 1)
    }
}

/// Tells why a file could not be opened. Given are the kinds of the parts that have to be
/// directories, where they are there, the walk along the path, and the kind of the place
/// that the last part was looked for in.
pub fn exec_open_error(required: &Vec<Option<u32>>, steps: &Vec<WalkStep>, end: Option<u32>) -> (errno:
    Errno)
    ensures
        errno == if not_a_directory(required@) {
            Errno::ENOTDIR
        } else {
            walk_error(steps@, end, 0)
        },
{
    let mut i: usize = 0;
    while i < required.len()
        invariant
            i <= required@.len(),
            forall|j: int|
                0 <= j < i ==> !(#[trigger] required@[j] matches Some(mode) && !mode_is_dir(mode)),
        decreases required@.len() - i,
    {
        if let Some(mode) = required[i] {
            if mode & 0o170000 != 0o040000 {
                assert(required@[i as int] matches Some(m) && !mode_is_dir(m));
                return Errno::ENOTDIR;
            }
        }
        i = i + 1;
    }
    let mut k: usize = 0;
    while k < steps.len()
        invariant
            k <= steps@.len(),
            walk_error(steps@, end, 0) == walk_error(steps@, end, k as int),
            !not_a_directory(required@),
        decreases steps@.len() - k,
    {
        let step = steps[k];
        if !step.up {
            let kind: u32 = step.mode & 0o170000;
            if kind != 0o040000 && kind != 0o120000 {
                return Errno::ENOTDIR;
            }
            if !step.found {
                return Errno::ENOENT;
            }
        }
        k = k + 1;
    }
    if let Some(mode) = end {
        let kind: u32 = mode & 0o170000;
        if kind != 0o040000 && kind != 0o120000 {
            return Errno::ENOTDIR;
        }
    }
    Errno::ENOENT
}

/// The parts of a path from `i` on, where `part` has been read: empty parts and those that
/// stay where they are do not count.
pub open spec fn parts_from(path: Seq<u8>, i: int, part: Seq<u8>) -> Seq<Seq<u8>>
    decreases path.len() - i,
{
    if i < 0 || i >= path.len() {
        if counts(part) {
            seq![part]
        } else {
            Seq::empty()
        }
    } else if path[i] == 47 {
        let rest = parts_from(path, i + 1, Seq::empty());
        if counts(part) {
            seq![part] + rest
        } else {
            rest
        }
    } else {
        parts_from(path, i + 1, part.push(path[i]))
    }
}

/// A part of a path that counts.
pub open spec fn counts(part: Seq<u8>) -> bool {
    part.len() > 0 && part != seq![46u8]
}

/// Splits a path into its parts.
pub fn path_components(path: &Vec<u8>) -> (parts: Vec<Vec<u8>>)
    ensures
        texts_of(parts@) == parts_from(path@, 0, Seq::empty()),
{
    let mut parts: Vec<Vec<u8>> = Vec::new();
    let mut current: Vec<u8> = Vec::new();
    let mut i: usize = 0;
    assert(current@ =~= Seq::<u8>::empty());
    assert(texts_of(parts@) + parts_from(path@, 0, current@) =~= parts_from(path@, 0, current@));
    while i < path.len()
        invariant
            i <= path@.len(),
            texts_of(parts@) + parts_from(path@, i as int, current@) == parts_from(
                path@,
                0,
                Seq::empty(),
            ),
        decreases path@.len() - i,
    {
        let b: u8 = path[i];
        let ghost before = texts_of(parts@);
        let ghost part_view = current@;
        if b == 47 {
            let counted: bool = current.len() > 0 && !(current.len() == 1 && current[0] == 46);
            proof {
                assert(counted == counts(part_view)) by {
                    if part_view.len() == 1 && part_view[0] == 46 {
                        assert(part_view =~= seq![46u8]);
                    }
                }
            }
            let done = current;
            current = Vec::new();
            assert(current@ =~= Seq::<u8>::empty());
            if counted {
                push_text(&mut parts, done);
                proof {
                    let rest = parts_from(path@, i + 1, Seq::empty());
                    assert(before + (seq![part_view] + rest) =~= before.push(part_view) + rest);
                }
            }
        } else {
            current.push(b);
        }
        i = i + 1;
    }
    let ghost before = texts_of(parts@);
    let ghost part_view = current@;
    let counted: bool = current.len() > 0 && !(current.len() == 1 && current[0] == 46);
    proof {
        assert(counted == counts(part_view)) by {
            if part_view.len() == 1 && part_view[0] == 46 {
                assert(part_view =~= seq![46u8]);
            }
        }
        assert(before + seq![part_view] =~= before.push(part_view));
        assert(before + Seq::<Seq<u8>>::empty() =~= before);
    }
    if counted {
        push_text(&mut parts, current);
    }
    parts
}

/// A file that does not start with the mark is no script, and one with the mark names an
/// interpreter or cannot be run.
pub proof fn law_script_or_not(data: Seq<u8>, name: Seq<u8>)
    ensures
        !is_script(data) && !ends_with(name, ".sh".spec_bytes()) ==> chosen_interpreter(
            data,
            name,
        ) is None,
        chosen_interpreter(data, name) is Some && is_script(data) ==> script_line(data) is Some,
        is_program(data) ==> !is_script(data),
{
}

} // verus!
