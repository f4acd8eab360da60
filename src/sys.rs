use vstd::prelude::*;

use crate::types::{c_char, c_int, utsname, UTSLENGTH};

verus! {

/// A raw syscall result encodes an error when, read as a signed number, it
/// lies in `-256 .. 0`.
pub open spec fn is_error_code(sys: usize) -> bool {
    -256 <= (sys as isize) < 0
}

/// The error number carried by an error-encoding syscall result.
pub open spec fn error_number(sys: usize) -> int {
    -((sys as isize) as int)
}

/// Translates a raw syscall result into the C convention: on an error, the
/// sentinel `!0` together with the error number to store in `errno`;
/// otherwise the result unchanged and no error number.
pub fn e(sys: usize) -> (r: (usize, Option<c_int>))
    ensures
        is_error_code(sys) ==> r.0 == usize::MAX && r.1 == Some(error_number(sys) as c_int),
        is_error_code(sys) ==> 1 <= error_number(sys) <= 256,
        !is_error_code(sys) ==> r.0 == sys && r.1.is_none(),
{
    let signed = sys as isize;
    if signed < 0 && signed >= -256 {
        let code: isize = -signed;
        (usize::MAX, Some(code as c_int))
    } else {
        (sys, None)
    }
}

/// Translates a raw syscall result into a typed result: the error number on
/// an error, the value otherwise.
pub fn check(sys: usize) -> (r: Result<usize, c_int>)
    ensures
        is_error_code(sys) ==> r == Err::<usize, c_int>(error_number(sys) as c_int),
        !is_error_code(sys) ==> r == Ok::<usize, c_int>(sys),
{
    let (value, errno) = e(sys);
    match errno {
        Some(code) => Err(code),
        None => Ok(value),
    }
}

/// What `gethostname` stores for a node name and a buffer of `len` bytes:
/// the name up to and including its terminating NUL, cut to `len` bytes.
pub open spec fn hostname_copy(node: Seq<c_char>, len: nat) -> Seq<c_char>
    decreases node.len(),
{
    if len == 0 || node.len() == 0 {
        Seq::empty()
    } else if node[0] == 0 {
        seq![node[0]]
    } else {
        seq![node[0]] + hostname_copy(node.drop_first(), (len - 1) as nat)
    }
}

/// The bytes `gethostname` stores into a buffer of `len` bytes, given what
/// `uname` reported.
pub fn gethostname(uts: &utsname, len: usize) -> (r: Vec<c_char>)
    ensures
        r@ == hostname_copy(uts.nodename@, len as nat),
{
    let node = uts.nodename.as_slice();
    let ghost ns = node@;
    let mut out: Vec<c_char> = Vec::new();
    let mut i: usize = 0;
    assert(ns.subrange(0, ns.len() as int) =~= ns);
    while i < UTSLENGTH && i < len
        invariant
            ns == uts.nodename@,
            node@ == ns,
            ns.len() == UTSLENGTH,
            i <= UTSLENGTH,
            i <= len,
            hostname_copy(ns, len as nat) == out@ + hostname_copy(
                ns.subrange(i as int, ns.len() as int),
                (len - i) as nat,
            ),
        decreases UTSLENGTH - i,
    {
        let c = node[i];
        assert(c == ns[i as int]);
        let ghost rest = ns.subrange(i as int, ns.len() as int);
        assert(rest[0] == c);
        assert(rest.drop_first() =~= ns.subrange(i + 1, ns.len() as int));
        out.push(c);
        if c == 0 {
            assert(hostname_copy(rest, (len - i) as nat) == seq![c]);
            return out;
        }
        assert(out@ + hostname_copy(ns.subrange(i + 1, ns.len() as int), (len - i - 1) as nat)
            =~= out@.drop_last() + hostname_copy(rest, (len - i) as nat));
        i = i + 1;
    }
    proof {
        let rest = ns.subrange(i as int, ns.len() as int);
        assert(hostname_copy(rest, (len - i) as nat) =~= Seq::<c_char>::empty());
        assert(out@ + Seq::<c_char>::empty() =~= out@);
    }
    out
}

} // verus!
