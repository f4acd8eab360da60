#![allow(non_camel_case_types)]

use vstd::prelude::*;

verus! {

pub type int8_t = i8;
pub type int16_t = i16;
pub type int32_t = i32;
pub type int64_t = i64;
pub type uint8_t = u8;
pub type uint16_t = u16;
pub type uint32_t = u32;
pub type uint64_t = u64;

pub type c_schar = i8;
pub type c_uchar = u8;
pub type c_short = i16;
pub type c_ushort = u16;
pub type c_int = i32;
pub type c_uint = u32;
pub type c_longlong = i64;
pub type c_ulonglong = u64;
pub type intmax_t = i64;
pub type uintmax_t = u64;

pub type size_t = usize;
pub type ptrdiff_t = isize;
pub type intptr_t = isize;
pub type uintptr_t = usize;
pub type ssize_t = isize;

pub type c_char = i8;
pub type c_long = i64;
pub type c_ulong = u64;

pub type off_t = i64;
pub type mode_t = u16;
pub type time_t = i64;
pub type pid_t = usize;
pub type id_t = usize;
pub type gid_t = usize;
pub type uid_t = usize;
pub type dev_t = usize;
pub type ino_t = usize;
pub type nlink_t = usize;
pub type blksize_t = isize;
pub type blkcnt_t = u64;

pub type clock_t = i64;
pub type clockid_t = i32;

pub type in_addr_t = [u8; 4];
pub type in_port_t = u16;
pub type sa_family_t = u16;
pub type socklen_t = u32;

pub const AF_INET: c_int = 2;
pub const SOCK_STREAM: c_int = 1;
pub const SOCK_DGRAM: c_int = 2;

/// The opaque target of a C `void *`.
pub enum c_void {
    __variant1,
    __variant2,
}

/// A point in time, or a duration, as seconds and nanoseconds.
#[derive(Clone, Copy, Default)]
pub struct timespec {
    pub tv_sec: time_t,
    pub tv_nsec: c_long,
}

/// File status, as `stat` and `fstat` fill it.
pub struct stat {
    pub st_dev: dev_t,
    pub st_ino: ino_t,
    pub st_nlink: nlink_t,
    pub st_mode: mode_t,
    pub st_uid: uid_t,
    pub st_gid: gid_t,
    pub st_rdev: dev_t,
    pub st_size: off_t,
    pub st_blksize: blksize_t,
    pub st_blocks: blkcnt_t,
    pub st_atim: time_t,
    pub st_mtim: time_t,
    pub st_ctim: time_t,
    pub _pad: [u8; 48],
}

impl stat {
    /// Every field is zero.
    pub open spec fn is_zeroed(&self) -> bool {
        &&& self.st_dev == 0
        &&& self.st_ino == 0
        &&& self.st_nlink == 0
        &&& self.st_mode == 0
        &&& self.st_uid == 0
        &&& self.st_gid == 0
        &&& self.st_rdev == 0
        &&& self.st_size == 0
        &&& self.st_blksize == 0
        &&& self.st_blocks == 0
        &&& self.st_atim == 0
        &&& self.st_mtim == 0
        &&& self.st_ctim == 0
        &&& forall|i: int| 0 <= i < 48 ==> #[trigger] self._pad@[i] == 0
    }
}

impl Default for stat {
    fn default() -> (r: stat)
        ensures
            r.is_zeroed(),
    {
        let pad: [u8; 48] = [0u8; 48];
        stat {
            st_dev: 0,
            st_ino: 0,
            st_nlink: 0,
            st_mode: 0,
            st_uid: 0,
            st_gid: 0,
            st_rdev: 0,
            st_size: 0,
            st_blksize: 0,
            st_blocks: 0,
            st_atim: 0,
            st_mtim: 0,
            st_ctim: 0,
            _pad: pad,
        }
    }
}

/// A generic socket address.
#[derive(Clone, Copy, Default)]
pub struct sockaddr {
    pub sa_family: sa_family_t,
    pub data: [c_char; 14],
}

/// An IPv4 address as its four octets, in the order they are written.
#[derive(Clone, Copy)]
pub struct in_addr {
    pub s_addr: [u8; 4],
}

pub type sigset_t = [c_ulong; 1];

/// The action taken on a signal. The handler and restorer are held as the
/// addresses of the functions they stand for.
pub struct sigaction {
    pub sa_handler: usize,
    pub sa_flags: c_ulong,
    pub sa_restorer: usize,
    pub sa_mask: sigset_t,
}

pub const UTSLENGTH: usize = 65;

/// System identification, as `uname` fills it.
pub struct utsname {
    pub sysname: [c_char; UTSLENGTH],
    pub nodename: [c_char; UTSLENGTH],
    pub release: [c_char; UTSLENGTH],
    pub version: [c_char; UTSLENGTH],
    pub machine: [c_char; UTSLENGTH],
    pub domainname: [c_char; UTSLENGTH],
}

pub type cc_t = u8;
pub type speed_t = u32;
pub type tcflag_t = u32;

pub const NCCS: usize = 32;

/// Terminal attributes.
pub struct termios {
    pub c_iflag: tcflag_t,
    pub c_oflag: tcflag_t,
    pub c_cflag: tcflag_t,
    pub c_lflag: tcflag_t,
    pub c_line: cc_t,
    pub c_cc: [cc_t; NCCS],
    pub __c_ispeed: speed_t,
    pub __c_ospeed: speed_t,
}

/// Access and modification times for `utime`.
#[derive(Clone, Copy)]
pub struct utimbuf {
    pub actime: time_t,
    pub modtime: time_t,
}

/// The two whole-second time stamps that `utime` hands to the kernel:
/// access time first, then modification time.
pub fn utime_times(times: &utimbuf) -> (r: [timespec; 2])
    ensures
        r@[0].tv_sec == times.actime && r@[0].tv_nsec == 0,
        r@[1].tv_sec == times.modtime && r@[1].tv_nsec == 0,
{
    [
        timespec { tv_sec: times.actime, tv_nsec: 0 },
        timespec { tv_sec: times.modtime, tv_nsec: 0 },
    ]
}

} // verus!
