//! The way from a path to a program that runs.

use vstd::prelude::*;

use super::exec::{
    adjust_args, adjusted_args, check_executable, check_program, chosen_interpreter, default_envs,
    exec_open_error, exec_step, is_program, is_script, mode_is_dir, not_a_directory, script_args,
    texts_of, walk_error, with_defaults, ExecStep, WalkStep,
};
use crate::errno::Errno;

verus! {

/// A file that was opened.
pub struct OpenedFile {
    pub mode: u32,
    pub can_execute: bool,
    /// Where it is, from the root on.
    pub full_path: Vec<u8>,
    pub name: Vec<u8>,
    pub data: Vec<u8>,
}

/// What was found on the way to a file that is not there.
pub struct MissingFile {
    pub required: Vec<Option<u32>>,
    pub steps: Vec<WalkStep>,
    pub end: Option<u32>,
}

/// What came of opening a file.
pub enum OpenEvent {
    Opened(OpenedFile),
    Missing(MissingFile),
}

/// What is to be done next.
pub enum ExecAction {
    /// Open a file.
    Open(Vec<u8>),
    /// Load a program: where it is, its bytes and its arguments.
    Load(Vec<u8>, Vec<u8>, Vec<Vec<u8>>),
    /// Give up.
    Fail(Errno),
}

/// A thread on its way to another program.
pub struct ExecRun {
    pub path: Vec<u8>,
    pub args: Vec<Vec<u8>>,
    pub envs: Vec<Vec<u8>>,
    /// The program is the interpreter of a script.
    pub scripted: bool,
}

/// Starts on the way to another program; the file at the path is to be opened.
pub fn do_exec(path: Vec<u8>, args: Vec<Vec<u8>>, envs: Vec<Vec<u8>>, mac: [u8; 6]) -> (run: ExecRun)
    ensures
        run.path == path,
        !run.scripted,
        texts_of(run.args@) == adjusted_args(path@, texts_of(args@)),
        texts_of(run.envs@) == with_defaults(texts_of(envs@), mac@),
{
    let mut args = args;
    let mut envs = envs;
    default_envs(&mut envs, mac);
    adjust_args(&path, &mut args);
    ExecRun { path, args, envs, scripted: false }
}

/// What follows from a file that can be executed.
pub open spec fn after_open(
    before: ExecRun,
    after: ExecRun,
    file: OpenedFile,
    action: ExecAction,
) -> bool {
    if before.scripted {
        if is_program(file.data@) {
            action matches ExecAction::Load(at, data, args) && at == file.full_path && data
                == file.data && args@ == before.args@
        } else {
            action == ExecAction::Fail(Errno::ENOEXEC)
        }
    } else {
        match chosen_interpreter(file.data@, file.name@) {
            Some((interpreter, argument)) => {
                &&& action matches ExecAction::Open(next) && next@ == interpreter
                &&& after.scripted
                &&& texts_of(after.args@) == script_args(
                    interpreter,
                    argument,
                    before.path@,
                    texts_of(before.args@),
                )
            },
            None => if !is_script(file.data@) && is_program(file.data@) {
                action matches ExecAction::Load(at, data, args) && at == file.full_path && data
                    == file.data && args@ == before.args@
            } else {
                action == ExecAction::Fail(Errno::ENOEXEC)
            },
        }
    }
}

/// How a thread on its way goes on after a file was to be opened.
pub open spec fn file_opened(
    before: ExecRun,
    after: ExecRun,
    event: OpenEvent,
    action: ExecAction,
) -> bool {
    &&& after.path == before.path
    &&& after.envs == before.envs
    &&& action is Open ==> after.scripted && !before.scripted
    &&& action !is Open ==> after.scripted == before.scripted
    &&& match event {
        OpenEvent::Missing(missing) => {
            &&& action == ExecAction::Fail(
                if not_a_directory(missing.required@) {
                    Errno::ENOTDIR
                } else {
                    walk_error(missing.steps@, missing.end, 0)
                },
            )
            &&& after == before
        },
        OpenEvent::Opened(file) => if mode_is_dir(file.mode) || !file.can_execute {
            &&& action == ExecAction::Fail(Errno::EACCES)
            &&& after == before
        } else {
            &&& after_open(before, after, file, action)
            &&& action !is Open ==> after.args@.len() == 0
        },
    }
}

impl ExecRun {
    /// Goes on with a file that was opened, or could not be. The arguments go with the program.
    pub fn opened(&mut self, event: OpenEvent) -> (action: ExecAction)
        ensures
            file_opened(*old(self), *final(self), event, action),
    {
        let file = match event {
            OpenEvent::Missing(missing) => {
                return ExecAction::Fail(
                    exec_open_error(&missing.required, &missing.steps, missing.end),
                );
            },
            OpenEvent::Opened(file) => file,
        };
        if let Err(errno) = check_executable(file.mode, file.can_execute) {
            return ExecAction::Fail(errno);
        }
        let mut args: Vec<Vec<u8>> = Vec::new();
        std::mem::swap(&mut args, &mut self.args);
        if self.scripted {
            return match check_program(&file.data) {
                Err(errno) => ExecAction::Fail(errno),
                Ok(_) => ExecAction::Load(file.full_path, file.data, args),
            };
        }
        match exec_step(&self.path, &file.name, &file.data, args) {
            Err(errno) => ExecAction::Fail(errno),
            Ok(ExecStep::Load(args)) => ExecAction::Load(file.full_path, file.data, args),
            Ok(ExecStep::Interpreter(next, args)) => {
                self.args = args;
                self.scripted = true;
                ExecAction::Open(next)
            },
        }
    }
}

} // verus!
