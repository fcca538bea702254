//! Parsing of the input line a user submits: blank input is ignored, a
//! line that begins with a slash may be one of the built-in session,
//! model and workspace commands, and everything else — including an
//! unrecognised slash word — is submitted as ordinary text, to the
//! model or to the terminal depending on the active view.

use vstd::prelude::*;
use vstd::utf8::encode_utf8;
use vstd::string::StrSliceExecFns;

use crate::decoder::is_blank;
use crate::decoder::is_blank_vec;
use crate::decoder::is_ws;
use crate::splitter::bytes_eq;

verus! {

/// Drop leading whitespace.
pub open spec fn skip_ws(s: Seq<u8>) -> Seq<u8>
    decreases s.len(),
{
    if s.len() > 0 && is_ws(s[0]) {
        skip_ws(s.drop_first())
    } else {
        s
    }
}

/// The run of non-whitespace bytes at the front.
pub open spec fn tok_of(s: Seq<u8>) -> Seq<u8>
    decreases s.len(),
{
    if s.len() > 0 && !is_ws(s[0]) {
        seq![s[0]] + tok_of(s.drop_first())
    } else {
        Seq::empty()
    }
}

/// What remains after the run of non-whitespace bytes at the front.
pub open spec fn after_tok(s: Seq<u8>) -> Seq<u8>
    decreases s.len(),
{
    if s.len() > 0 && !is_ws(s[0]) {
        after_tok(s.drop_first())
    } else {
        s
    }
}

/// The first whitespace-separated word of the line.
pub open spec fn first_token(s: Seq<u8>) -> Seq<u8> {
    tok_of(skip_ws(s))
}

/// The second whitespace-separated word of the line; empty when there
/// is none.
pub open spec fn second_token(s: Seq<u8>) -> Seq<u8> {
    tok_of(skip_ws(after_tok(skip_ws(s))))
}

/// What a submitted line asks for.
#[derive(Debug, Clone, PartialEq, Eq)]
pub enum InputCommand {
    /// Blank input: nothing happens.
    Nothing,
    /// Start a new session, optionally under this name.
    NewSession(Option<Vec<u8>>),
    /// Save the current session.
    SaveSession,
    /// Load the named session; without a name the usage hint is shown.
    LoadSession(Option<Vec<u8>>),
    /// Refresh and show the session list.
    ListSessions,
    /// Open the model selector.
    OpenModelSelector,
    /// Clear the conversation.
    ResetContext,
    /// Add the named file to the context; without a name the usage
    /// hint is shown.
    AddFile(Option<Vec<u8>>),
    /// Switch the workspace to this path; without one the usage hint
    /// is shown.
    ChangeDir(Option<Vec<u8>>),
    /// Ordinary text, handed to the active view.
    Submit(Vec<u8>),
}

/// The spec-level value of a parsed command.
pub enum CmdModel {
    Nothing,
    NewSession(Option<Seq<u8>>),
    SaveSession,
    LoadSession(Option<Seq<u8>>),
    ListSessions,
    OpenModelSelector,
    ResetContext,
    AddFile(Option<Seq<u8>>),
    ChangeDir(Option<Seq<u8>>),
    Submit(Seq<u8>),
}

pub open spec fn cmd_model(c: InputCommand) -> CmdModel {
    match c {
        InputCommand::Nothing => CmdModel::Nothing,
        InputCommand::NewSession(a) => CmdModel::NewSession(match a {
            Option::Some(v) => Option::Some(v@),
            Option::None => Option::None,
        }),
        InputCommand::SaveSession => CmdModel::SaveSession,
        InputCommand::LoadSession(a) => CmdModel::LoadSession(match a {
            Option::Some(v) => Option::Some(v@),
            Option::None => Option::None,
        }),
        InputCommand::ListSessions => CmdModel::ListSessions,
        InputCommand::OpenModelSelector => CmdModel::OpenModelSelector,
        InputCommand::ResetContext => CmdModel::ResetContext,
        InputCommand::AddFile(a) => CmdModel::AddFile(match a {
            Option::Some(v) => Option::Some(v@),
            Option::None => Option::None,
        }),
        InputCommand::ChangeDir(a) => CmdModel::ChangeDir(match a {
            Option::Some(v) => Option::Some(v@),
            Option::None => Option::None,
        }),
        InputCommand::Submit(v) => CmdModel::Submit(v@),
    }
}

/// The argument the second word provides, when there is one.
pub open spec fn arg_of(s: Seq<u8>) -> Option<Seq<u8>> {
    if second_token(s).len() == 0 {
        Option::None
    } else {
        Option::Some(second_token(s))
    }
}

/// What a submitted line means.
pub open spec fn parse_input_model(s: Seq<u8>) -> CmdModel {
    if is_blank(s) {
        CmdModel::Nothing
    } else if s.len() > 0 && s[0] == 47 {
        let t = first_token(s);
        if t == encode_utf8("/new"@) {
            CmdModel::NewSession(arg_of(s))
        } else if t == encode_utf8("/save"@) {
            CmdModel::SaveSession
        } else if t == encode_utf8("/load"@) {
            CmdModel::LoadSession(arg_of(s))
        } else if t == encode_utf8("/list"@) {
            CmdModel::ListSessions
        } else if t == encode_utf8("/model"@) {
            CmdModel::OpenModelSelector
        } else if t == encode_utf8("/reset"@) {
            CmdModel::ResetContext
        } else if t == encode_utf8("/add"@) {
            CmdModel::AddFile(arg_of(s))
        } else if t == encode_utf8("/cd"@) {
            CmdModel::ChangeDir(arg_of(s))
        } else {
            CmdModel::Submit(s)
        }
    } else {
        CmdModel::Submit(s)
    }
}

/// Whether a byte is whitespace.
fn is_ws_byte(b: u8) -> (r: bool)
    ensures
        r == is_ws(b),
{
    b == 32 || b == 9 || b == 13 || b == 10
}

/// Skip whitespace from `from` on; the returned index starts the rest.
#[verifier::loop_isolation(false)]
fn skip_ws_exec(v: &Vec<u8>, from: usize) -> (j: usize)
    requires
        from <= v@.len(),
    ensures
        from <= j <= v@.len(),
        skip_ws(v@.skip(from as int)) == v@.skip(j as int),
{
    let mut j = from;
    while j < v.len() && is_ws_byte(v[j])
        invariant
            from <= j <= v@.len(),
            skip_ws(v@.skip(from as int)) == skip_ws(v@.skip(j as int)),
        decreases v@.len() - j,
    {
        proof {
            assert(v@.skip(j as int)[0] == v@[j as int]);
            assert(v@.skip(j as int).drop_first() =~= v@.skip(j + 1));
        }
        j = j + 1;
    }
    proof {
        if j < v@.len() {
            assert(v@.skip(j as int)[0] == v@[j as int]);
        } else {
            assert(v@.skip(j as int) =~= Seq::<u8>::empty());
        }
    }
    j
}

/// Read the word starting at `from`; the returned index follows it.
#[verifier::loop_isolation(false)]
fn read_tok(v: &Vec<u8>, from: usize) -> (r: (Vec<u8>, usize))
    requires
        from <= v@.len(),
    ensures
        from <= r.1 <= v@.len(),
        r.0@ == tok_of(v@.skip(from as int)),
        after_tok(v@.skip(from as int)) == v@.skip(r.1 as int),
{
    let mut out: Vec<u8> = Vec::new();
    let mut j = from;
    proof {
        assert(Seq::<u8>::empty() + tok_of(v@.skip(from as int)) =~= tok_of(
            v@.skip(from as int),
        ));
    }
    while j < v.len() && !is_ws_byte(v[j])
        invariant
            from <= j <= v@.len(),
            out@ + tok_of(v@.skip(j as int)) == tok_of(v@.skip(from as int)),
            after_tok(v@.skip(from as int)) == after_tok(v@.skip(j as int)),
        decreases v@.len() - j,
    {
        proof {
            assert(v@.skip(j as int)[0] == v@[j as int]);
            assert(v@.skip(j as int).drop_first() =~= v@.skip(j + 1));
            assert(out@.push(v@[j as int]) + tok_of(v@.skip(j + 1)) =~= out@ + (seq![
                v@[j as int],
            ] + tok_of(v@.skip(j + 1))));
        }
        out.push(v[j]);
        j = j + 1;
    }
    proof {
        if j < v@.len() {
            assert(v@.skip(j as int)[0] == v@[j as int]);
        } else {
            assert(v@.skip(j as int) =~= Seq::<u8>::empty());
        }
        assert(tok_of(v@.skip(j as int)) =~= Seq::<u8>::empty());
        assert(out@ + Seq::<u8>::empty() =~= out@);
        assert(after_tok(v@.skip(j as int)) == v@.skip(j as int));
    }
    (out, j)
}

/// Parse one submitted line.
#[verifier::rlimit(30)]
pub fn parse_input(line: &Vec<u8>) -> (r: InputCommand)
    ensures
        cmd_model(r) == parse_input_model(line@),
{
    if is_blank_vec(line) {
        return InputCommand::Nothing;
    }
    if line.len() == 0 || line[0] != 47 {
        return InputCommand::Submit(vstd::slice::slice_to_vec(line.as_slice()));
    }
    let start = skip_ws_exec(line, 0);
    let (tok, after) = read_tok(line, start);
    proof {
        assert(line@.skip(0) =~= line@);
    }
    let arg_start = skip_ws_exec(line, after);
    let (arg, _arg_end) = read_tok(line, arg_start);
    assert(arg@ == second_token(line@));
    let argopt: Option<Vec<u8>> = if arg.len() == 0 {
        None
    } else {
        Some(arg)
    };
    if bytes_eq(&tok, &"/new".as_bytes_vec()) {
        InputCommand::NewSession(argopt)
    } else if bytes_eq(&tok, &"/save".as_bytes_vec()) {
        InputCommand::SaveSession
    } else if bytes_eq(&tok, &"/load".as_bytes_vec()) {
        InputCommand::LoadSession(argopt)
    } else if bytes_eq(&tok, &"/list".as_bytes_vec()) {
        InputCommand::ListSessions
    } else if bytes_eq(&tok, &"/model".as_bytes_vec()) {
        InputCommand::OpenModelSelector
    } else if bytes_eq(&tok, &"/reset".as_bytes_vec()) {
        InputCommand::ResetContext
    } else if bytes_eq(&tok, &"/add".as_bytes_vec()) {
        InputCommand::AddFile(argopt)
    } else if bytes_eq(&tok, &"/cd".as_bytes_vec()) {
        InputCommand::ChangeDir(argopt)
    } else {
        InputCommand::Submit(vstd::slice::slice_to_vec(line.as_slice()))
    }
}

} // verus!
