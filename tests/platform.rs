use relibc::rawfile::RawFile;
use relibc::sys::{check, e, gethostname};
use relibc::types::{stat, utimbuf, utime_times, utsname};

#[test]
fn syscall_errors_become_errno() {
    assert_eq!(e((-2isize) as usize), (usize::MAX, Some(2)));
    assert_eq!(e((-256isize) as usize), (usize::MAX, Some(256)));
    assert_eq!(e(5), (5, None));
    assert_eq!(e((-257isize) as usize), ((-257isize) as usize, None));
    assert_eq!(check((-13isize) as usize), Err(13));
    assert_eq!(check(0), Ok(0));
}

#[test]
fn raw_file_results() {
    assert!(RawFile::open(-1).is_err());
    let f = RawFile::open(7).ok().unwrap();
    assert_eq!(f.as_raw_fd(), 7);
    assert!(f.dup(-1).is_err());
    assert_eq!(f.dup(9).ok().unwrap().into_raw_fd(), 9);
    assert_eq!(RawFile::from_fd(4).as_raw_fd(), 4);
}

#[test]
fn zeroed_stat() {
    let s = stat::default();
    assert_eq!(s.st_size, 0);
    assert_eq!(s.st_mode, 0);
    assert!(s._pad.iter().all(|b| *b == 0));
}

#[test]
fn utime_timestamps() {
    let t = utime_times(&utimbuf { actime: 10, modtime: 20 });
    assert_eq!((t[0].tv_sec, t[0].tv_nsec), (10, 0));
    assert_eq!((t[1].tv_sec, t[1].tv_nsec), (20, 0));
}

fn uts_with_node(node: &[u8]) -> utsname {
    let mut nodename = [0i8; 65];
    for (i, b) in node.iter().enumerate() {
        nodename[i] = *b as i8;
    }
    utsname {
        sysname: [0; 65],
        nodename,
        release: [0; 65],
        version: [0; 65],
        machine: [0; 65],
        domainname: [0; 65],
    }
}

#[test]
fn hostname_copied_with_nul() {
    let uts = uts_with_node(b"box");
    assert_eq!(gethostname(&uts, 10), vec![b'b' as i8, b'o' as i8, b'x' as i8, 0]);
    assert_eq!(gethostname(&uts, 4), vec![b'b' as i8, b'o' as i8, b'x' as i8, 0]);
    assert_eq!(gethostname(&uts, 2), vec![b'b' as i8, b'o' as i8]);
    assert_eq!(gethostname(&uts, 0), Vec::<i8>::new());
    let full = uts_with_node(&[b'a'; 65]);
    assert_eq!(gethostname(&full, 100).len(), 65);
}
