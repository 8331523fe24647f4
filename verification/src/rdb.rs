//! Startup configuration and the snapshot database interface: the two
//! command-line switches that name the snapshot directory and file, the
//! header check of the snapshot format, and the read-only mapping a
//! snapshot loader yields.
//!
//! Reading the argument list and the snapshot file from disk is the
//! caller's business; everything here works on plain values.
use std::string::String;
use std::vec::Vec;
use vstd::prelude::*;

use crate::text::bytes_eq;
use crate::text::parse_i64;
use crate::text::spec_parse_i64;

verus! {

/// Why the startup arguments yield no configuration.
#[derive(Debug, Clone, Copy, PartialEq, Eq, Structural)]
pub enum ConfigError {
    /// `--dir` with no path after it.
    ExpectedPath,
    /// `--dbfilename` with no name after it.
    ExpectedFileName,
    /// A switch this program does not take.
    InvalidArgs,
    /// No (or an empty) snapshot file name.
    EmptyFileName,
    /// No (or an empty) snapshot directory.
    EmptyDirectory,
}

/// The snapshot location: a directory and a file name inside it, fixed
/// at startup and read-only afterwards.
#[derive(Debug, Clone)]
pub struct RDB {
    pub dir: String,
    pub file_name: String,
}

/// The argument list as character sequences.
pub open spec fn strings_view(v: Seq<String>) -> Seq<Seq<char>> {
    v.map_values(|s: String| s@)
}

/// The `--dir` switch.
pub open spec fn dir_flag() -> Seq<char> {
    "--dir"@
}

/// The `--dbfilename` switch.
pub open spec fn file_flag() -> Seq<char> {
    "--dbfilename"@
}

/// Walks the argument list as switch/value pairs, later values winning;
/// a switch without its value, or an unknown switch, rejects the list.
pub open spec fn spec_scan_args(
    args: Seq<Seq<char>>,
    i: int,
    dir: Seq<char>,
    file_name: Seq<char>,
) -> Result<(Seq<char>, Seq<char>), ConfigError>
    decreases args.len() - i,
{
    if i >= args.len() {
        Ok((dir, file_name))
    } else if args[i] == dir_flag() {
        if i + 1 < args.len() {
            spec_scan_args(args, i + 2, args[i + 1], file_name)
        } else {
            Err(ConfigError::ExpectedPath)
        }
    } else if args[i] == file_flag() {
        if i + 1 < args.len() {
            spec_scan_args(args, i + 2, dir, args[i + 1])
        } else {
            Err(ConfigError::ExpectedFileName)
        }
    } else {
        Err(ConfigError::InvalidArgs)
    }
}

/// What [`RDB::build`] yields from an argument list: the scanned pair,
/// which must leave neither field empty.
pub open spec fn spec_build(args: Seq<Seq<char>>) -> Result<(Seq<char>, Seq<char>), ConfigError> {
    match spec_scan_args(args, 0, Seq::empty(), Seq::empty()) {
        Err(e) => Err(e),
        Ok((d, f)) => if f.len() == 0 {
            Err(ConfigError::EmptyFileName)
        } else if d.len() == 0 {
            Err(ConfigError::EmptyDirectory)
        } else {
            Ok((d, f))
        },
    }
}

impl RDB {
    /// Reads the configuration out of the command-line arguments, the
    /// program name already stripped: `--dir <path>` and
    /// `--dbfilename <name>`, in any order, later values winning; both
    /// must be present and non-empty.
    #[verifier::loop_isolation(false)]
    pub fn build(args: &Vec<String>) -> (r: Result<RDB, ConfigError>)
        ensures
            match r {
                Ok(c) => spec_build(strings_view(args@)) == Ok::<
                    (Seq<char>, Seq<char>),
                    ConfigError,
                >((c.dir@, c.file_name@)),
                Err(e) => spec_build(strings_view(args@)) == Err::<
                    (Seq<char>, Seq<char>),
                    ConfigError,
                >(e),
            },
    {
        let ghost vargs = strings_view(args@);
        let dflag: String = "--dir".to_owned();
        let fflag: String = "--dbfilename".to_owned();
        let mut dir: String = String::new();
        let mut file_name: String = String::new();
        let n = args.len();
        let mut i: usize = 0;
        while i < n
            invariant
                i <= n,
                spec_scan_args(vargs, 0, Seq::empty(), Seq::empty()) == spec_scan_args(
                    vargs,
                    i as int,
                    dir@,
                    file_name@,
                ),
            decreases n - i,
        {
            proof {
                assert(vargs[i as int] == args@[i as int]@);
            }
            if args[i] == dflag {
                if i + 1 < n {
                    proof {
                        assert(vargs[i + 1] == args@[i + 1]@);
                    }
                    dir = args[i + 1].clone();
                    i = i + 2;
                } else {
                    return Err(ConfigError::ExpectedPath);
                }
            } else if args[i] == fflag {
                if i + 1 < n {
                    proof {
                        assert(vargs[i + 1] == args@[i + 1]@);
                    }
                    file_name = args[i + 1].clone();
                    i = i + 2;
                } else {
                    return Err(ConfigError::ExpectedFileName);
                }
            } else {
                return Err(ConfigError::InvalidArgs);
            }
        }
        if file_name.as_str().is_empty() {
            return Err(ConfigError::EmptyFileName);
        }
        if dir.as_str().is_empty() {
            return Err(ConfigError::EmptyDirectory);
        }
        Ok(RDB { dir, file_name })
    }
}

/// Why a snapshot header was rejected.
#[derive(Debug, Clone, Copy, PartialEq, Eq, Structural)]
pub enum HeaderError {
    /// Fewer than the nine header bytes remain.
    TooShort,
    /// The magic string is not `REDIS`.
    BadMagic,
    /// The four version bytes are not a decimal number.
    BadVersion,
}

/// The five magic bytes `REDIS`.
pub open spec fn header_magic() -> Seq<u8> {
    seq![82u8, 69u8, 68u8, 73u8, 83u8]
}

/// What [`read_redis_header`] checks at `pos`: the magic string, then
/// four bytes reading as a decimal version number; on success the cursor
/// lands just past the nine header bytes.
pub open spec fn spec_read_header(b: Seq<u8>, pos: int) -> Result<int, HeaderError> {
    if pos + 9 > b.len() {
        Err(HeaderError::TooShort)
    } else if b.subrange(pos, pos + 5) != header_magic() {
        Err(HeaderError::BadMagic)
    } else {
        match spec_parse_i64(b.subrange(pos + 5, pos + 9)) {
            None => Err(HeaderError::BadVersion),
            Some(v) => if i32::MIN <= v <= i32::MAX {
                Ok(pos + 9)
            } else {
                Err(HeaderError::BadVersion)
            },
        }
    }
}

/// Checks the snapshot header under the cursor: the magic string
/// `REDIS`, then a four-byte decimal version number; advances past the
/// nine bytes only when both check out.
pub fn read_redis_header(src: &Vec<u8>, pos: &mut usize) -> (r: Result<(), HeaderError>)
    requires
        *old(pos) <= src@.len(),
    ensures
        match r {
            Ok(_) => spec_read_header(src@, *old(pos) as int) == Ok::<int, HeaderError>(
                *final(pos) as int,
            ),
            Err(e) => spec_read_header(src@, *old(pos) as int) == Err::<int, HeaderError>(e)
                && *final(pos) == *old(pos),
        },
{
    let p = *pos;
    if src.len() - p < 9 {
        return Err(HeaderError::TooShort);
    }
    let mut magic: Vec<u8> = Vec::new();
    magic.push(82);
    magic.push(69);
    magic.push(68);
    magic.push(73);
    magic.push(83);
    proof {
        assert(magic@ =~= header_magic());
    }
    let mut head: Vec<u8> = Vec::new();
    let mut k: usize = 0;
    while k < 5
        invariant
            k <= 5,
            p + 9 <= src@.len(),
            src@.len() <= usize::MAX,
            head@ == src@.subrange(p as int, p + k),
        decreases 5 - k,
    {
        proof {
            assert(src@.subrange(p as int, p + k + 1) =~= src@.subrange(p as int, p + k).push(
                src@[p + k],
            ));
        }
        head.push(src[p + k]);
        k = k + 1;
    }
    if !bytes_eq(&head, &magic) {
        return Err(HeaderError::BadMagic);
    }
    let mut vers: Vec<u8> = Vec::new();
    let mut k2: usize = 0;
    while k2 < 4
        invariant
            k2 <= 4,
            p + 9 <= src@.len(),
            src@.len() <= usize::MAX,
            vers@ == src@.subrange(p + 5, p + 5 + k2),
        decreases 4 - k2,
    {
        proof {
            assert(src@.subrange(p + 5, p + 5 + k2 + 1) =~= src@.subrange(p + 5, p + 5 + k2).push(
                src@[p + 5 + k2],
            ));
        }
        vers.push(src[p + 5 + k2]);
        k2 = k2 + 1;
    }
    let v = match parse_i64(&vers) {
        Some(v) => v,
        None => {
            return Err(HeaderError::BadVersion);
        },
    };
    if v < i32::MIN as i64 || v > i32::MAX as i64 {
        return Err(HeaderError::BadVersion);
    }
    *pos = p + 9;
    Ok(())
}

/// The read-only mapping a snapshot loader yields: string keys bound to
/// opaque byte values. The loader itself — reading and decoding the file
/// — is an external collaborator; this type only holds its result.
#[derive(Debug)]
pub struct DB {
    pool: Vec<(String, Vec<u8>)>,
}

/// The mapping a run of snapshot entries denotes, later entries winning.
spec fn pool_map(s: Seq<(String, Vec<u8>)>) -> Map<Seq<char>, Seq<u8>>
    decreases s.len(),
{
    if s.len() == 0 {
        Map::empty()
    } else {
        pool_map(s.drop_last()).insert(s.last().0@, s.last().1@)
    }
}

/// Keys appear at most once.
spec fn pool_unique(s: Seq<(String, Vec<u8>)>) -> bool {
    forall|i: int, j: int| 0 <= i < j < s.len() ==> (#[trigger] s[i].0@) != (#[trigger] s[j].0@)
}

/// An entry's key is in the map, bound to that entry's value.
proof fn lemma_pool_map_index(s: Seq<(String, Vec<u8>)>, i: int)
    requires
        pool_unique(s),
        0 <= i < s.len(),
    ensures
        pool_map(s).contains_key(s[i].0@),
        pool_map(s)[s[i].0@] == s[i].1@,
    decreases s.len(),
{
    if i < s.len() - 1 {
        assert(pool_unique(s.drop_last())) by {
            assert(forall|x: int, y: int|
                0 <= x < y < s.len() - 1 ==> s.drop_last()[x] == s[x] && s.drop_last()[y] == s[y]);
        }
        assert(s.drop_last()[i] == s[i]);
        lemma_pool_map_index(s.drop_last(), i);
        assert(s[i].0@ != s.last().0@);
    }
}

/// A key no entry holds is not in the map.
proof fn lemma_pool_map_absent(s: Seq<(String, Vec<u8>)>, k: Seq<char>)
    requires
        forall|i: int| 0 <= i < s.len() ==> (#[trigger] s[i].0@) != k,
    ensures
        !pool_map(s).contains_key(k),
    decreases s.len(),
{
    if s.len() > 0 {
        assert(forall|i: int| 0 <= i < s.len() - 1 ==> s.drop_last()[i] == s[i]);
        lemma_pool_map_absent(s.drop_last(), k);
    }
}

/// Replacing the value under an existing key updates the map in place.
proof fn lemma_pool_map_update(s: Seq<(String, Vec<u8>)>, i: int, e: (String, Vec<u8>))
    requires
        pool_unique(s),
        0 <= i < s.len(),
        e.0@ == s[i].0@,
    ensures
        pool_map(s.update(i, e)) == pool_map(s).insert(e.0@, e.1@),
    decreases s.len(),
{
    let s2 = s.update(i, e);
    if i == s.len() - 1 {
        assert(s2.drop_last() =~= s.drop_last());
        assert(s2.last() == e);
        assert(pool_map(s.drop_last()).insert(e.0@, e.1@) =~= pool_map(s.drop_last()).insert(
            s.last().0@,
            s.last().1@,
        ).insert(e.0@, e.1@));
    } else {
        assert(pool_unique(s.drop_last())) by {
            assert(forall|x: int, y: int|
                0 <= x < y < s.len() - 1 ==> s.drop_last()[x] == s[x] && s.drop_last()[y] == s[y]);
        }
        assert(s.drop_last()[i] == s[i]);
        lemma_pool_map_update(s.drop_last(), i, e);
        assert(s2.drop_last() =~= s.drop_last().update(i, e));
        assert(s2.last() == s.last());
        assert(e.0@ != s.last().0@);
        assert(pool_map(s.drop_last()).insert(e.0@, e.1@).insert(s.last().0@, s.last().1@)
            =~= pool_map(s.drop_last()).insert(s.last().0@, s.last().1@).insert(e.0@, e.1@));
    }
}

impl View for DB {
    type V = Map<Seq<char>, Seq<u8>>;

    closed spec fn view(&self) -> Map<Seq<char>, Seq<u8>> {
        pool_map(self.pool@)
    }
}

impl DB {
    /// Keys appear at most once, so lookups are unambiguous.
    pub closed spec fn wf(&self) -> bool {
        pool_unique(self.pool@)
    }

    /// An empty snapshot database.
    pub fn new() -> (db: DB)
        ensures
            db.wf(),
            db@ == Map::<Seq<char>, Seq<u8>>::empty(),
    {
        DB { pool: Vec::new() }
    }

    /// Looks a key up: a copy of the bound value, or nothing.
    pub fn get(&self, key: &String) -> (r: Option<Vec<u8>>)
        requires
            self.wf(),
        ensures
            match r {
                Some(v) => self@.contains_key(key@) && v@ == self@[key@],
                None => !self@.contains_key(key@),
            },
    {
        let n = self.pool.len();
        let mut i: usize = 0;
        while i < n
            invariant
                i <= n,
                n == self.pool@.len(),
                self.wf(),
                forall|j: int| 0 <= j < i ==> (#[trigger] self.pool@[j].0@) != key@,
            decreases n - i,
        {
            if self.pool[i].0.eq(key) {
                proof {
                    lemma_pool_map_index(self.pool@, i as int);
                }
                return Some(crate::resp::copy_bytes(&self.pool[i].1));
            }
            i = i + 1;
        }
        proof {
            lemma_pool_map_absent(self.pool@, key@);
        }
        None
    }

    /// Binds a key, returning a copy of the value it replaced, if any.
    #[verifier::loop_isolation(false)]
    pub fn set(&mut self, key: String, data: Vec<u8>) -> (r: Option<Vec<u8>>)
        requires
            old(self).wf(),
        ensures
            final(self).wf(),
            final(self)@ == old(self)@.insert(key@, data@),
            match r {
                Some(v) => old(self)@.contains_key(key@) && v@ == old(self)@[key@],
                None => !old(self)@.contains_key(key@),
            },
    {
        let ghost data0 = data@;
        let n = self.pool.len();
        let mut i: usize = 0;
        while i < n
            invariant
                i <= n,
                n == self.pool@.len(),
                self.wf(),
                self@ == old(self)@,
                self.pool@ == old(self).pool@,
                forall|j: int| 0 <= j < i ==> (#[trigger] self.pool@[j].0@) != key@,
            decreases n - i,
        {
            if self.pool[i].0.eq(&key) {
                let prev = crate::resp::copy_bytes(&self.pool[i].1);
                let ghost before = self.pool@;
                let ghost e = (key, data);
                proof {
                    lemma_pool_map_index(before, i as int);
                    lemma_pool_map_update(before, i as int, e);
                }
                self.pool.set(i, (key, data));
                proof {
                    assert(self.pool@ == before.update(i as int, e));
                    assert(forall|x: int, y: int|
                        0 <= x < y < self.pool@.len() ==> self.pool@[x].0@ == before[x].0@
                            && self.pool@[y].0@ == before[y].0@);
                }
                return Some(prev);
            }
            i = i + 1;
        }
        proof {
            lemma_pool_map_absent(self.pool@, key@);
            let pushed = self.pool@.push((key, data));
            assert(pushed.drop_last() =~= self.pool@);
            assert(forall|x: int| 0 <= x < self.pool@.len() ==> pushed[x] == self.pool@[x]);
        }
        self.pool.push((key, data));
        None
    }
}

} // verus!
