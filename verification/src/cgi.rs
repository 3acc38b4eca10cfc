//! What running a CGI script takes: its arguments, its environment and
//! its working directory as the C strings that `execve` and `chdir` get.
use vstd::prelude::*;

use crate::handler::pairs_model;
use crate::text::chars_of;

verus! {

/// Why a CGI script cannot be run: a string handed to the system holds a
/// NUL character.
#[derive(Debug, Clone, Copy, PartialEq, Eq, Structural)]
pub enum CgiSpawnError {
    NulInInterpreter,
    NulInScriptPath,
    NulInCwd,
}

impl CgiSpawnError {
    /// The message of the error.
    pub fn message(&self) -> (r: &'static str)
        ensures
            r@ == spawn_error_message(*self),
    {
        match self {
            CgiSpawnError::NulInInterpreter => "nul in interpreter",
            CgiSpawnError::NulInScriptPath => "nul in script path",
            CgiSpawnError::NulInCwd => "nul in cwd",
        }
    }
}

pub open spec fn spawn_error_message(e: CgiSpawnError) -> Seq<char> {
    match e {
        CgiSpawnError::NulInInterpreter => "nul in interpreter"@,
        CgiSpawnError::NulInScriptPath => "nul in script path"@,
        CgiSpawnError::NulInCwd => "nul in cwd"@,
    }
}

/// The strings a CGI process is started with.
pub struct CgiCommand {
    /// The interpreter, then the script.
    pub argv: Vec<String>,
    /// `name=value` for each variable that holds no NUL.
    pub envp: Vec<String>,
    pub cwd: String,
}

/// `s` holds a NUL character, which C strings cannot.
pub open spec fn has_nul(s: Seq<char>) -> bool {
    s.contains('\0')
}

/// The `name=value` entries of the variables of `env` that can be C
/// strings, in order.
pub open spec fn env_entries(env: Seq<(Seq<char>, Seq<char>)>) -> Seq<Seq<char>>
    decreases env.len(),
{
    if env.len() == 0 {
        seq![]
    } else {
        let (k, v) = env.last();
        let e = k + "="@ + v;
        env_entries(env.drop_last()) + if has_nul(e) {
            seq![]
        } else {
            seq![e]
        }
    }
}

/// What starting the CGI process is given, or why it cannot start.
pub open spec fn cgi_plan(
    interpreter: Seq<char>,
    script: Seq<char>,
    cwd: Seq<char>,
    env: Seq<(Seq<char>, Seq<char>)>,
) -> Result<(Seq<Seq<char>>, Seq<Seq<char>>, Seq<char>), CgiSpawnError> {
    if has_nul(interpreter) {
        Err(CgiSpawnError::NulInInterpreter)
    } else if has_nul(script) {
        Err(CgiSpawnError::NulInScriptPath)
    } else if has_nul(cwd) {
        Err(CgiSpawnError::NulInCwd)
    } else {
        Ok((seq![interpreter, script], env_entries(env), cwd))
    }
}

fn holds_nul(s: &str) -> (r: bool)
    ensures
        r == has_nul(s@),
{
    let v = chars_of(s);
    let mut i: usize = 0;
    while i < v.len()
        invariant
            i <= v@.len(),
            v@ == s@,
            forall|j: int| 0 <= j < i ==> v@[j] != '\0',
        decreases v.len() - i,
    {
        if v[i] == '\0' {
            assert(v@[i as int] == '\0');
            return true;
        }
        i += 1;
    }
    false
}

/// The command that runs `script_path` with `interpreter` in `cwd` with
/// environment `env` (see [`cgi_plan`]).
pub fn cgi_command(
    interpreter: &str,
    script_path: &str,
    cwd: &str,
    env: &Vec<(String, String)>,
) -> (r: Result<CgiCommand, CgiSpawnError>)
    ensures
        match cgi_plan(interpreter@, script_path@, cwd@, pairs_model(env@)) {
            Ok((argv, envp, dir)) => r matches Ok(c) && c.argv@.map_values(|s: String| s@) == argv
                && c.envp@.map_values(|s: String| s@) == envp && c.cwd@ == dir,
            Err(e) => r == Err::<CgiCommand, CgiSpawnError>(e),
        },
{
    if holds_nul(interpreter) {
        return Err(CgiSpawnError::NulInInterpreter);
    }
    if holds_nul(script_path) {
        return Err(CgiSpawnError::NulInScriptPath);
    }
    if holds_nul(cwd) {
        return Err(CgiSpawnError::NulInCwd);
    }
    let mut argv: Vec<String> = Vec::new();
    argv.push(interpreter.to_owned());
    argv.push(script_path.to_owned());
    assert(argv@.map_values(|s: String| s@) =~= seq![interpreter@, script_path@]);
    let ghost pm = pairs_model(env@);
    let mut envp: Vec<String> = Vec::new();
    let mut i: usize = 0;
    while i < env.len()
        invariant
            i <= env@.len(),
            pm == pairs_model(env@),
            envp@.map_values(|s: String| s@) == env_entries(pm.subrange(0, i as int)),
        decreases env.len() - i,
    {
        let mut e = env[i].0.clone();
        e.append("=");
        e.append(env[i].1.as_str());
        let ghost before = envp@.map_values(|s: String| s@);
        proof {
            let q = pm.subrange(0, i + 1);
            assert(q.drop_last() =~= pm.subrange(0, i as int));
            assert(q.last() == (env@[i as int].0@, env@[i as int].1@));
        }
        if !holds_nul(e.as_str()) {
            envp.push(e);
            assert(envp@.map_values(|s: String| s@) =~= before + seq![e@]);
        } else {
            assert(before + Seq::<Seq<char>>::empty() =~= before);
        }
        i += 1;
    }
    assert(pm.subrange(0, pm.len() as int) =~= pm);
    Ok(CgiCommand { argv, envp, cwd: cwd.to_owned() })
}


/// The bytes going to a CGI process's stdin (the request body) and coming
/// from its stdout.
pub struct CgiIo {
    pub input: Vec<u8>,
    /// How much of the input has been written.
    pub input_pos: usize,
    pub output: Vec<u8>,
}

impl CgiIo {
    pub fn new(input: Vec<u8>) -> (r: Self)
        ensures
            r.input == input,
            r.input_pos == 0,
            r.output@ == Seq::<u8>::empty(),
    {
        CgiIo { input, input_pos: 0, output: Vec::new() }
    }

    /// Whether the script's stdin is fed at all: with an empty body it is
    /// closed at once.
    pub fn needs_stdin(&self) -> (r: bool)
        ensures
            r == (self.input@.len() > 0),
    {
        self.input.len() > 0
    }

    /// Whether all the input has been written.
    pub fn input_done(&self) -> (r: bool)
        ensures
            r == (self.input_pos >= self.input@.len()),
    {
        self.input_pos >= self.input.len()
    }

    /// Records that `n` more bytes of input were written; returns whether
    /// all of it is out.
    pub fn record_input(&mut self, n: usize) -> (finished: bool)
        requires
            old(self).input_pos + n <= old(self).input@.len(),
        ensures
            final(self).input_pos == old(self).input_pos + n,
            finished == (final(self).input_pos >= final(self).input@.len()),
            final(self).input == old(self).input,
            final(self).output == old(self).output,
    {
        let total = self.input.len();
        self.input_pos = self.input_pos + n;
        self.input_pos >= total
    }

    /// Records bytes read from the script's stdout.
    pub fn record_output(&mut self, data: &[u8])
        ensures
            final(self).output@ == old(self).output@ + data@,
            final(self).input == old(self).input,
            final(self).input_pos == old(self).input_pos,
    {
        let mut out = Vec::new();
        std::mem::swap(&mut out, &mut self.output);
        let ghost start = out@;
        let mut i: usize = 0;
        while i < data.len()
            invariant
                i <= data@.len(),
                out@ == start + data@.subrange(0, i as int),
            decreases data.len() - i,
        {
            out.push(data[i]);
            i += 1;
            assert(out@ =~= start + data@.subrange(0, i as int));
        }
        assert(data@.subrange(0, data@.len() as int) =~= data@);
        self.output = out;
    }

    /// Takes the output read so far.
    pub fn take_output(&mut self) -> (r: Vec<u8>)
        ensures
            r@ == old(self).output@,
            final(self).output@ == Seq::<u8>::empty(),
            final(self).input == old(self).input,
            final(self).input_pos == old(self).input_pos,
    {
        let mut out = Vec::new();
        std::mem::swap(&mut out, &mut self.output);
        out
    }
}

} // verus!
