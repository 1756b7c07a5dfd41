//! Paths: text from bytes, and what a path means where it starts from a directory.
use vstd::prelude::*;
use vstd::string::{StrSliceExecFns, StringExecFns};
use vstd::utf8::{decode_utf8, decode_utf8_encode_utf8, encode_utf8};
use vstd::utf8::{encode_utf8_decode_utf8, valid_utf8};

use crate::desc::fd_of;
use crate::kernel::Kernel;
use crate::task::NFDS;

verus! {

/// Stands for the current directory where a descriptor is asked for.
pub const AT_FDCWD: i32 = -100;

/// `AT_FDCWD` as it stands in a register.
pub const CWD_FD: u64 = 0xffff_ffff_ffff_ff9c;

/// The bytes as text, where they are UTF-8.
///
/// Calls `std::str::from_utf8`, which gives the text whose UTF-8 bytes these are, or an
/// error where they are not UTF-8.
#[verifier::external_body]
fn from_utf8(bytes: &[u8]) -> (r: Option<&str>)
    ensures
        r is Some <==> valid_utf8(bytes@),
        r matches Some(s) ==> encode_utf8(s@) == bytes@,
{
    std::str::from_utf8(bytes).ok()
}

/// The text that the bytes hold.
pub open spec fn text_of(bytes: Seq<u8>) -> Seq<char> {
    decode_utf8(bytes)
}

/// The bytes as a string, where they are UTF-8.
pub fn text(bytes: &[u8]) -> (r: Option<String>)
    ensures
        r is Some <==> valid_utf8(bytes@),
        r matches Some(s) ==> s@ == text_of(bytes@),
{
    match from_utf8(bytes) {
        Some(s) => {
            proof {
                encode_utf8_decode_utf8(s@);
            }
            Some(String::from_str(s))
        },
        None => None,
    }
}

/// Whether a path starts from the root.
pub open spec fn is_absolute(path: Seq<char>) -> bool {
    path.len() > 0 && path[0] == '/'
}

/// A path that starts from a directory.
pub open spec fn joined(dir: Seq<char>, path: Seq<char>) -> Seq<char> {
    if dir.len() > 0 && dir.last() == '/' {
        dir + path
    } else {
        dir.push('/') + path
    }
}

/// The path that `path` means where it starts from the directory open as `fd`.
pub open spec fn meant(k: Kernel, fd: u64, path: Seq<char>) -> Option<Seq<char>> {
    if is_absolute(path) {
        Some(path)
    } else if fd == CWD_FD {
        Some(joined(k.cur().cwd->0@, path))
    } else {
        match fd_of(k.cur(), fd) {
            Some(d) => match k.fs.files@[d.file as int].path {
                Some(p) => Some(joined(p@, path)),
                None => None,
            },
            None => None,
        }
    }
}

/// Whether `fd` can be asked for the directory that `path` starts from: the current
/// directory is known, and the first number past the descriptors is not used.
pub open spec fn can_mean(k: Kernel, fd: u64, path: Seq<char>) -> bool {
    is_absolute(path) || if fd == CWD_FD {
        k.cur().cwd is Some
    } else {
        fd != 8
    }
}

/// The path that `path` means where it starts from the directory open as `fd`.
pub fn at_path(k: &Kernel, fd: u64, path: String) -> (r: Result<String, ()>)
    requires
        k.calling(),
        can_mean(*k, fd, path@),
    ensures
        r is Ok <==> meant(*k, fd, path@) is Some,
        r matches Ok(p) ==> p@ == meant(*k, fd, path@)->0,
{
    let n: usize = path.as_str().unicode_len();
    if n > 0 && path.as_str().get_char(0) == '/' {
        return Ok(path);
    }
    let i: usize = k.cpu.task_idx.unwrap();
    let mut dir: String = if fd == CWD_FD {
        match &k.tasks[i].cwd {
            Some(c) => c.clone(),
            None => return Err(()),
        }
    } else {
        if fd > NFDS as u64 {
            return Err(());
        }
        match k.tasks[i].get_file(fd as usize) {
            Some(d) => {
                proof {
                    crate::books::lemma_fd_used(k.tasks@, k.fs.files@, i as int, fd as int);
                }
                match &k.fs.files[d.file].path {
                    Some(p) => p.clone(),
                    None => return Err(()),
                }
            },
            None => return Err(()),
        }
    };
    let m: usize = dir.as_str().unicode_len();
    let ghost d0 = dir@;
    if !(m > 0 && dir.as_str().get_char(m - 1) == '/') {
        dir.append("/");
        proof {
            reveal_strlit("/");
            assert("/"@ =~= seq!['/']);
            assert(dir@ =~= d0.push('/'));
        }
    }
    dir.append(path.as_str());
    Ok(dir)
}

/// The text of a path that the program gave, and what it means.
pub(crate) fn real_path(k: &Kernel, fd: u64, path: &[u8]) -> (r: Result<String, ()>)
    requires
        k.calling(),
        valid_utf8(path@),
        can_mean(*k, fd, text_of(path@)),
    ensures
        r is Ok <==> meant(*k, fd, text_of(path@)) is Some,
        r matches Ok(p) ==> p@ == meant(*k, fd, text_of(path@))->0,
{
    at_path(k, fd, text(path).unwrap())
}

/// Copies the bytes of `s` to the start of the buffer, which has room for them.
pub fn cpystr(buf: &mut [u8], s: &str) -> (n: usize)
    requires
        encode_utf8(s@).len() <= old(buf)@.len(),
    ensures
        n == encode_utf8(s@).len(),
        final(buf)@ == encode_utf8(s@) + old(buf)@.skip(n as int),
{
    let bytes: &[u8] = s.as_bytes();
    let n: usize = bytes.len();
    let mut i: usize = 0;
    let ghost b0 = buf@;
    while i < n
        invariant
            i <= n,
            n == bytes@.len(),
            n <= b0.len(),
            buf@ == bytes@.take(i as int) + b0.skip(i as int),
        decreases n - i,
    {
        buf[i] = bytes[i];
        i += 1;
        assert(buf@ =~= bytes@.take(i as int) + b0.skip(i as int));
    }
    assert(bytes@.take(n as int) =~= bytes@);
    n
}

/// A directory that was changed to is given back byte for byte.
pub proof fn law_directory_is_given_back(path: Seq<u8>)
    requires
        valid_utf8(path),
    ensures
        encode_utf8(text_of(path)) == path,
{
    decode_utf8_encode_utf8(path);
}

/// A path from the root means itself, whatever descriptor comes with it.
pub proof fn law_absolute_path_means_itself(k: Kernel, fd: u64, path: Seq<char>)
    requires
        is_absolute(path),
    ensures
        can_mean(k, fd, path),
        meant(k, fd, path) == Some(path),
{
}

/// A path from a directory is the directory's path, one slash, and the path.
pub proof fn law_relative_path_is_behind_directory(dir: Seq<char>, path: Seq<char>)
    ensures
        joined(dir, path).len() == dir.len() + path.len() + if dir.len() > 0 && dir.last() == '/' {
            0int
        } else {
            1
        },
        joined(dir, path).take(dir.len() as int) == dir,
        joined(dir, path).skip(joined(dir, path).len() - path.len()) == path,
        is_absolute(dir) ==> is_absolute(joined(dir, path)),
        path.len() < joined(dir, path).len() ==> joined(dir, path)[joined(dir, path).len()
            - path.len() - 1] == '/',
{
    assert(joined(dir, path).take(dir.len() as int) =~= dir);
    assert(joined(dir, path).skip(joined(dir, path).len() - path.len()) =~= path);
}

} // verus!
