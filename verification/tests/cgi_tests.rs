use localhost::cgi::{cgi_command, CgiIo, CgiSpawnError};

#[test]
fn command_carries_arguments_and_environment() {
    let env = vec![
        ("A".to_string(), "1".to_string()),
        ("BAD".to_string(), "x\0y".to_string()),
        ("B".to_string(), "two words".to_string()),
    ];
    let cmd = cgi_command("/bin/sh", "/srv/run.sh", "/srv", &env).unwrap();
    assert_eq!(cmd.argv, vec!["/bin/sh".to_string(), "/srv/run.sh".to_string()]);
    assert_eq!(cmd.envp, vec!["A=1".to_string(), "B=two words".to_string()]);
    assert_eq!(cmd.cwd, "/srv");
}

#[test]
fn nul_characters_are_refused() {
    let env = Vec::new();
    assert_eq!(cgi_command("/bin\0sh", "s", "/", &env).err(), Some(CgiSpawnError::NulInInterpreter));
    assert_eq!(cgi_command("sh", "s\0", "/", &env).err(), Some(CgiSpawnError::NulInScriptPath));
    assert_eq!(cgi_command("sh", "s", "\0", &env).err(), Some(CgiSpawnError::NulInCwd));
    assert_eq!(CgiSpawnError::NulInCwd.message(), "nul in cwd");
    assert_eq!(CgiSpawnError::NulInInterpreter.message(), "nul in interpreter");
    assert_eq!(CgiSpawnError::NulInScriptPath.message(), "nul in script path");
}

#[test]
fn cgi_io_tracks_input_and_output() {
    let mut io = CgiIo::new(b"body".to_vec());
    assert!(io.needs_stdin());
    assert!(!io.input_done());
    assert!(!io.record_input(3));
    assert!(io.record_input(1));
    assert!(io.input_done());
    io.record_output(b"Status: 200\r\n");
    io.record_output(b"\r\nok");
    assert_eq!(io.take_output(), b"Status: 200\r\n\r\nok");
    assert!(io.output.is_empty());
    assert!(!CgiIo::new(Vec::new()).needs_stdin());
}
