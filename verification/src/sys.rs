//! Trusted boundary to the operating system: child processes through `duct`,
//! the working directory, files and directory listings through `nix`, and one
//! small piece of `std`'s string building. Each item's doc comment names the
//! outside function it relies on; nothing else in the crate is taken on
//! trust.
use vstd::prelude::*;

verus! {

/// Relies on `String::push`: appends one character to the string.
#[verifier::external_body]
pub fn push_char(s: &mut String, c: char)
    ensures
        final(s)@ == old(s)@.push(c),
{
    s.push(c);
}

/// A command line being built for execution; opaque to the verifier.
#[verifier::external_type_specification]
#[verifier::external_body]
pub struct ExExpression(duct::Expression);

/// Relies on `duct::cmd`: builds a command from a program path and its
/// arguments, nothing started yet.
#[verifier::external_body]
pub fn cmd_new(path: &String, argv: &Vec<String>) -> duct::Expression {
    duct::cmd(path.as_str(), argv.clone())
}

/// Relies on `duct::Expression::full_env`: the child sees exactly the given
/// variables. duct collects the pairs into a map keyed by name, keeping the
/// last pair per name, so callers hand in one pair per name.
#[verifier::external_body]
pub fn cmd_full_env(e: &duct::Expression, envs: &Vec<(String, String)>) -> duct::Expression {
    e.full_env(envs.clone())
}

/// Relies on `duct::Expression::stdout_capture`: the child's standard output
/// is collected instead of inherited.
#[verifier::external_body]
pub fn cmd_stdout_capture(e: &duct::Expression) -> duct::Expression {
    e.stdout_capture()
}

/// Relies on `duct::Expression::unchecked`: a non-zero exit status is
/// reported in the status, not as an error.
#[verifier::external_body]
pub fn cmd_unchecked(e: &duct::Expression) -> duct::Expression {
    e.unchecked()
}

/// Relies on `duct::Expression::run`: starts the child, waits for it to
/// finish, and hands back the captured output (decoded byte-for-byte where
/// it is ASCII) and the exit code (`None` when ended by a signal). What
/// comes back depends on the machine; nothing is assumed of it.
#[verifier::external_body]
pub fn cmd_run_wait(e: &duct::Expression) -> (r: Result<(String, Option<i32>), String>) {
    match e.run() {
        Ok(out) => {
            let text = String::from_utf8_lossy(&out.stdout).into_owned();
            Ok((text, out.status.code()))
        },
        Err(err) => Err(err.to_string()),
    }
}

/// Relies on `nix::unistd::chdir`: changes the working directory.
#[verifier::external_body]
pub fn sys_chdir(path: &String) -> (r: Result<(), String>) {
    nix::unistd::chdir(path.as_str()).map_err(|e| e.desc().to_string())
}

/// Relies on `nix::sys::stat::stat`: true when the path names an existing
/// filesystem entry.
#[verifier::external_body]
pub fn path_exists(path: &String) -> (r: bool) {
    nix::sys::stat::stat(path.as_str()).is_ok()
}

/// Relies on `nix::fcntl::open` with `O_WRONLY | O_CREAT | O_TRUNC`: opens a
/// file for a whole-content overwrite.
#[verifier::external_body]
pub fn open_write_trunc(path: &String) -> (r: Result<i32, String>) {
    nix::fcntl::open(
        path.as_str(),
        nix::fcntl::OFlag::O_WRONLY | nix::fcntl::OFlag::O_CREAT | nix::fcntl::OFlag::O_TRUNC,
        nix::sys::stat::Mode::from_bits_truncate(0o644),
    ).map_err(|e| e.desc().to_string())
}

/// Relies on `nix::fcntl::open` with `O_WRONLY | O_CREAT | O_APPEND`: opens
/// a file for appending.
#[verifier::external_body]
pub fn open_append(path: &String) -> (r: Result<i32, String>) {
    nix::fcntl::open(
        path.as_str(),
        nix::fcntl::OFlag::O_WRONLY | nix::fcntl::OFlag::O_CREAT | nix::fcntl::OFlag::O_APPEND,
        nix::sys::stat::Mode::from_bits_truncate(0o644),
    ).map_err(|e| e.desc().to_string())
}

/// Relies on `nix::fcntl::open` with `O_RDONLY`: opens a file for reading.
#[verifier::external_body]
pub fn open_read(path: &String) -> (r: Result<i32, String>) {
    nix::fcntl::open(
        path.as_str(),
        nix::fcntl::OFlag::O_RDONLY,
        nix::sys::stat::Mode::empty(),
    ).map_err(|e| e.desc().to_string())
}

/// Relies on `nix::unistd::write`: writes some prefix of the buffer to the
/// file descriptor and reports how many bytes were taken, never more than
/// the buffer holds.
#[verifier::external_body]
pub fn fd_write(fd: i32, buf: &Vec<u8>, from: usize) -> (r: Result<usize, String>)
    requires
        from <= buf@.len(),
    ensures
        r matches Ok(n) ==> n <= buf@.len() - from,
{
    nix::unistd::write(fd, &buf[from..]).map_err(|e| e.desc().to_string())
}

/// Relies on `nix::unistd::read`: reads the next bytes from the file
/// descriptor, at most 4096 of them; an empty answer means end of file.
#[verifier::external_body]
pub fn fd_read_chunk(fd: i32) -> (r: Result<Vec<u8>, String>)
    ensures
        r matches Ok(v) ==> v@.len() <= 4096,
{
    let mut buf = [0u8; 4096];
    match nix::unistd::read(fd, &mut buf) {
        Ok(n) => Ok(buf[..n].to_vec()),
        Err(e) => Err(e.desc().to_string()),
    }
}

/// Relies on `nix::unistd::close`: closes the file descriptor.
#[verifier::external_body]
pub fn fd_close(fd: i32) {
    let _ = nix::unistd::close(fd);
}

/// Relies on `nix::dir::Dir`: the names in a directory, each marked as
/// directory or not; `None` when the directory cannot be opened. Entries
/// whose names are not valid UTF-8 are left out. What comes back depends on
/// the disk; nothing is assumed of it.
#[verifier::external_body]
pub fn list_dir(path: &String) -> (r: Option<Vec<(String, bool)>>) {
    let mut dir = nix::dir::Dir::open(
        path.as_str(),
        nix::fcntl::OFlag::O_RDONLY | nix::fcntl::OFlag::O_DIRECTORY,
        nix::sys::stat::Mode::empty(),
    ).ok()?;
    let mut out = Vec::new();
    for entry in dir.iter() {
        let entry = entry.ok()?;
        if let Ok(name) = entry.file_name().to_str() {
            let is_dir = matches!(entry.file_type(), Some(nix::dir::Type::Directory));
            out.push((name.to_string(), is_dir));
        }
    }
    Some(out)
}

} // verus!

verus! {

/// The text that lossy UTF-8 decoding gives to a byte sequence; it depends
/// on the bytes alone.
pub uninterp spec fn lossy_chars(b: Seq<u8>) -> Seq<char>;

/// Relies on `String::from_utf8_lossy`: decodes bytes as UTF-8, replacing
/// ill-formed sequences; the result depends on the bytes alone.
#[verifier::external_body]
pub fn bytes_to_chars_lossy(b: &Vec<u8>) -> (r: Vec<char>)
    ensures
        r@ == lossy_chars(b@),
        b@.len() == 0 ==> r@.len() == 0,
{
    String::from_utf8_lossy(b).chars().collect()
}

} // verus!
