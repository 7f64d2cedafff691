//! The producer evaluator's dispatch: a stored `(data, kind)` pair
//! names how a file's bytes come to be. `text` carries the bytes
//! inline; `file` points at a host file to read; `exec` names a shell
//! command whose standard output, bounded by the wall-clock budget
//! here, becomes the body. The shell performs the host read or the
//! spawn; which of the three is owed, and with what argument, is
//! decided and verified here.

use vstd::prelude::*;
use vstd::string::*;

use crate::vfs::FileType;

verus! {

/// The wall-clock budget of an `exec` producer, in milliseconds.
pub const EXEC_TIMEOUT_MS: u64 = 1000;

/// How long the FUSE adapter waits on one output line inside the
/// budget, in milliseconds.
pub const EXEC_POLL_MS: u64 = 100;

/// How a file's bytes are produced: inline bytes, a host file to
/// read, or a shell command to run under the budget.
#[derive(Debug)]
pub enum Producer {
    Inline(Vec<u8>),
    HostFile(String),
    Command(String),
}

/// Resolves a stored `(data, kind)` pair into the work its read
/// requires.
pub fn producer_plan(data: &str, kind: FileType) -> (r: Producer)
    ensures
        kind == FileType::Text ==> (r matches Producer::Inline(b) && b@
            == vstd::utf8::encode_utf8(data@)),
        kind == FileType::File ==> (r matches Producer::HostFile(p) && p@ == data@),
        kind == FileType::Exec ==> (r matches Producer::Command(c) && c@ == data@),
{
    match kind {
        FileType::Text => Producer::Inline(data.as_bytes_vec()),
        FileType::File => Producer::HostFile(data.to_owned()),
        FileType::Exec => Producer::Command(data.to_owned()),
    }
}

/// The basename of `s`: what follows its last slash, or all of it.
pub open spec fn base_from(s: Seq<char>, i: int) -> Seq<char>
    decreases i + 1,
{
    if i < 0 {
        s
    } else if s[i] == '/' {
        s.skip(i + 1)
    } else {
        base_from(s, i - 1)
    }
}

/// The extension within a basename `t`: what follows the last dot
/// standing after the first character; a leading dot hides the name,
/// it opens no extension.
pub open spec fn ext_from(t: Seq<char>, i: int) -> Seq<char>
    decreases i + 1,
{
    if i < 1 {
        Seq::empty()
    } else if t[i] == '.' {
        t.skip(i + 1)
    } else {
        ext_from(t, i - 1)
    }
}

/// The extension of a file name: found in its basename.
pub open spec fn ext_of(s: Seq<char>) -> Seq<char> {
    ext_from(base_from(s, s.len() - 1), base_from(s, s.len() - 1).len() - 1)
}

/// Where the basename of `name` begins: just after the last slash,
/// or at the start.
fn base_start_of(name: &str) -> (r: usize)
    ensures
        r <= name@.len(),
        base_from(name@, name@.len() - 1) == name@.skip(r as int),
{
    let n = name.unicode_len();
    let mut i: usize = n;
    while i > 0
        invariant
            i <= n,
            n == name@.len(),
            base_from(name@, n - 1) == base_from(name@, i - 1),
        decreases i,
    {
        if name.get_char(i - 1) == '/' {
            proof {
                assert(base_from(name@, i - 1) == name@.skip(i as int));
            }
            return i;
        }
        i -= 1;
    }
    proof {
        assert(base_from(name@, -1) == name@);
        assert(name@.skip(0) =~= name@);
    }
    0
}

/// The extension of a file name, for choosing a content type; empty
/// when there is none.
pub fn get_ext(name: &str) -> (r: String)
    ensures
        r@ == ext_of(name@),
{
    let n = name.unicode_len();
    let base_start = base_start_of(name);
    let ghost base = name@.skip(base_start as int);
    let mut j: usize = n;
    while j > 0 && j - 1 > base_start
        invariant
            j <= n,
            base_start <= n,
            n == name@.len(),
            base == name@.skip(base_start as int),
            base == base_from(name@, n - 1),
            ext_from(base, base.len() - 1) == ext_from(base, j - base_start - 1),
        decreases j,
    {
        if name.get_char(j - 1) == '.' {
            proof {
                assert(base[j - base_start - 1] == name@[j - 1]);
                assert(ext_from(base, j - base_start - 1) == base.skip(j - base_start));
                assert(base.skip(j - base_start) =~= name@.subrange(j as int, n as int));
            }
            return name.substring_char(j, n).to_owned();
        }
        proof {
            assert(base[j - base_start - 1] == name@[j - 1]);
        }
        j -= 1;
    }
    proof {
        assert(ext_of(name@) =~= Seq::<char>::empty());
        reveal_strlit("");
        assert(""@ =~= Seq::<char>::empty());
    }
    "".to_owned()
}

} // verus!
