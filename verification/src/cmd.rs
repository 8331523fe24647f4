//! The command interpreter: converts a parsed [`Frame`] into a typed
//! command, or fails with a descriptive error. Construction is free of
//! side effects, so a rejected command never touches the store.
use vstd::prelude::*;

use crate::resp::Frame;
use crate::resp::FrameV;
use crate::resp::IntoBytesError;
use crate::resp::frames_view;
use crate::resp::lemma_frames_view;
use crate::resp::spec_into_bytes;
use crate::text::bytes_eq_ignore_case;
use crate::text::eq_ignore_case;
use crate::text::is_valid_utf8;
use crate::text::lower_bytes;
use crate::text::parse_u64;
use crate::text::spec_parse_u64;

verus! {

/// A typed request, produced from a frame.
///
/// A `Set` expiry is the requested time-to-live in milliseconds; the
/// store anchors it to the clock when the command is executed.
#[derive(Debug, PartialEq, Eq)]
pub enum CMD {
    Ping,
    Echo(Vec<u8>),
    SetCmd { key: Vec<u8>, value: Vec<u8>, expire: Option<u64> },
    Get { key: Vec<u8> },
    Config { dir: bool, file_name: bool },
}

/// The mathematical shape of a [`CMD`].
#[verifier::ext_equal]
pub enum CmdV {
    Ping,
    Echo(Seq<u8>),
    SetCmd { key: Seq<u8>, value: Seq<u8>, expire: Option<u64> },
    Get { key: Seq<u8> },
    Config { dir: bool, file_name: bool },
}

impl View for CMD {
    type V = CmdV;

    open spec fn view(&self) -> CmdV {
        match self {
            CMD::Ping => CmdV::Ping,
            CMD::Echo(m) => CmdV::Echo(m@),
            CMD::SetCmd { key, value, expire } => CmdV::SetCmd {
                key: key@,
                value: value@,
                expire: *expire,
            },
            CMD::Get { key } => CmdV::Get { key: key@ },
            CMD::Config { dir, file_name } => CmdV::Config {
                dir: *dir,
                file_name: *file_name,
            },
        }
    }
}

/// Why a frame is not a command.
#[derive(Debug, Clone, Copy, PartialEq, Eq, Structural)]
pub enum CmdError {
    /// A bare simple or bulk frame whose text is not a known bare command.
    InvalidCommand,
    /// An error frame cannot be a command.
    ErrorFrame,
    /// An integer frame cannot be a command.
    IntegerFrame,
    /// A null frame cannot be a command.
    NullFrame,
    /// An empty array holds no command.
    EmptyArray,
    /// A token position held a frame with no byte payload.
    TokenNotBytes(IntoBytesError),
    /// A token that is not valid UTF-8.
    InvalidUtf8,
    /// GET with no key.
    GetWithoutKey,
    /// SET with no key or no value.
    SetWithoutKeyOrValue,
    /// A SET option in the expiry position that is not `PX`.
    InvalidTimeSyntax,
    /// A missing millisecond count, or one that is not an unsigned
    /// decimal numeral in range.
    InvalidMillis,
    /// CONFIG with too few arguments.
    ConfigArity,
    /// A CONFIG subcommand other than GET.
    ConfigNotGet,
    /// A CONFIG parameter this store does not serve.
    UnimplementedConfig,
    /// A verb this store does not serve.
    UnimplementedCommand,
}

// The verbs and option words, lower case, as byte strings.
pub open spec fn kw_ping() -> Seq<u8> {
    seq![112u8, 105u8, 110u8, 103u8]
}

pub open spec fn kw_echo() -> Seq<u8> {
    seq![101u8, 99u8, 104u8, 111u8]
}

pub open spec fn kw_get() -> Seq<u8> {
    seq![103u8, 101u8, 116u8]
}

pub open spec fn kw_set() -> Seq<u8> {
    seq![115u8, 101u8, 116u8]
}

pub open spec fn kw_px() -> Seq<u8> {
    seq![112u8, 120u8]
}

pub open spec fn kw_config() -> Seq<u8> {
    seq![99u8, 111u8, 110u8, 102u8, 105u8, 103u8]
}

pub open spec fn kw_dir() -> Seq<u8> {
    seq![100u8, 105u8, 114u8]
}

pub open spec fn kw_dbfilename() -> Seq<u8> {
    seq![100u8, 98u8, 102u8, 105u8, 108u8, 101u8, 110u8, 97u8, 109u8, 101u8]
}

/// A command token: the byte payload of a textual or bulk frame, which
/// must be valid UTF-8.
pub open spec fn spec_token(f: FrameV) -> Result<Seq<u8>, CmdError> {
    match spec_into_bytes(f) {
        Err(e) => Err(CmdError::TokenNotBytes(e)),
        Ok(s) => if vstd::utf8::valid_utf8(s) {
            Ok(s)
        } else {
            Err(CmdError::InvalidUtf8)
        },
    }
}

/// Folds the CONFIG GET parameter list into the two flags, left to right:
/// each known name sets its flag (duplicates are idempotent), any other
/// name rejects the command.
pub open spec fn spec_config_flags(arr: Seq<FrameV>, i: int, dir: bool, file_name: bool) -> Result<
    CmdV,
    CmdError,
>
    decreases arr.len() - i,
{
    if i >= arr.len() {
        Ok(CmdV::Config { dir, file_name })
    } else {
        match spec_token(arr[i]) {
            Err(e) => Err(e),
            Ok(t) => if eq_ignore_case(t, kw_dir()) {
                spec_config_flags(arr, i + 1, true, file_name)
            } else if eq_ignore_case(t, kw_dbfilename()) {
                spec_config_flags(arr, i + 1, dir, true)
            } else {
                Err(CmdError::UnimplementedConfig)
            },
        }
    }
}

/// What a multi-token request array means.
pub open spec fn spec_from_array(arr: Seq<FrameV>) -> Result<CmdV, CmdError> {
    if arr.len() == 0 {
        Err(CmdError::EmptyArray)
    } else {
        match spec_token(arr[0]) {
            Err(e) => Err(e),
            Ok(verb) => if eq_ignore_case(verb, kw_ping()) {
                Ok(CmdV::Ping)
            } else if eq_ignore_case(verb, kw_echo()) {
                if arr.len() < 2 {
                    Ok(CmdV::Echo(Seq::empty()))
                } else {
                    match spec_token(arr[1]) {
                        Err(e) => Err(e),
                        Ok(m) => Ok(CmdV::Echo(m)),
                    }
                }
            } else if eq_ignore_case(verb, kw_get()) {
                if arr.len() < 2 {
                    Err(CmdError::GetWithoutKey)
                } else {
                    match spec_token(arr[1]) {
                        Err(e) => Err(e),
                        Ok(k) => Ok(CmdV::Get { key: k }),
                    }
                }
            } else if eq_ignore_case(verb, kw_set()) {
                spec_set_cmd(arr)
            } else if eq_ignore_case(verb, kw_config()) {
                if arr.len() < 3 {
                    Err(CmdError::ConfigArity)
                } else {
                    match spec_token(arr[1]) {
                        Err(e) => Err(e),
                        Ok(sub) => if !eq_ignore_case(sub, kw_get()) {
                            Err(CmdError::ConfigNotGet)
                        } else {
                            spec_config_flags(arr, 2, false, false)
                        },
                    }
                }
            } else {
                Err(CmdError::UnimplementedCommand)
            },
        }
    }
}

/// What a SET request array means: key and value are mandatory, and an
/// expiry needs the exact shape `PX <millis>`. A fourth token without a
/// millisecond count is rejected, whether or not it reads `PX`.
pub open spec fn spec_set_cmd(arr: Seq<FrameV>) -> Result<CmdV, CmdError> {
    if arr.len() < 3 {
        Err(CmdError::SetWithoutKeyOrValue)
    } else {
        match spec_token(arr[1]) {
            Err(e) => Err(e),
            Ok(k) => match spec_into_bytes(arr[2]) {
                Err(e) => Err(CmdError::TokenNotBytes(e)),
                Ok(v) => if arr.len() == 3 {
                    Ok(CmdV::SetCmd { key: k, value: v, expire: None })
                } else {
                    match spec_token(arr[3]) {
                        Err(e) => Err(e),
                        Ok(px) => if !eq_ignore_case(px, kw_px()) {
                            Err(CmdError::InvalidTimeSyntax)
                        } else if arr.len() < 5 {
                            Err(CmdError::InvalidMillis)
                        } else {
                            match spec_token(arr[4]) {
                                Err(e) => Err(e),
                                Ok(ms) => match spec_parse_u64(ms) {
                                    None => Err(CmdError::InvalidMillis),
                                    Some(t) => Ok(CmdV::SetCmd {
                                        key: k,
                                        value: v,
                                        expire: Some(t),
                                    }),
                                },
                            }
                        },
                    }
                },
            },
        }
    }
}

/// What [`CMD::try_from`] yields from a frame.
pub open spec fn spec_try_from(f: FrameV) -> Result<CmdV, CmdError> {
    match f {
        FrameV::Simple(s) => if eq_ignore_case(s, kw_ping()) {
            Ok(CmdV::Ping)
        } else {
            Err(CmdError::InvalidCommand)
        },
        FrameV::Error(_) => Err(CmdError::ErrorFrame),
        FrameV::Integer(_) => Err(CmdError::IntegerFrame),
        FrameV::Null => Err(CmdError::NullFrame),
        FrameV::Bulk(p) => if !vstd::utf8::valid_utf8(p) {
            Err(CmdError::InvalidUtf8)
        } else if eq_ignore_case(p, kw_ping()) {
            Ok(CmdV::Ping)
        } else {
            Err(CmdError::InvalidCommand)
        },
        FrameV::Array(arr) => spec_from_array(arr),
    }
}

/// The parameter walk reads nothing before its start index, so it is the
/// same over two arrays that agree from there on.
proof fn lemma_config_flags_congruent(
    a1: Seq<FrameV>,
    a2: Seq<FrameV>,
    i: int,
    dir: bool,
    file_name: bool,
)
    requires
        0 <= i,
        a1.len() == a2.len(),
        forall|j: int| i <= j < a1.len() ==> a1[j] == a2[j],
    ensures
        spec_config_flags(a1, i, dir, file_name) == spec_config_flags(a2, i, dir, file_name),
    decreases a1.len() - i,
{
    if i < a1.len() {
        assert(a1[i] == a2[i]);
        lemma_config_flags_congruent(a1, a2, i + 1, true, file_name);
        lemma_config_flags_congruent(a1, a2, i + 1, dir, true);
    }
}

/// Whether a parameter token reads, up to ASCII case, as `dir`.
pub open spec fn names_dir(f: FrameV) -> bool {
    spec_token(f) matches Ok(t) && eq_ignore_case(t, kw_dir())
}

/// Whether a parameter token reads, up to ASCII case, as `dbfilename`.
pub open spec fn names_dbfilename(f: FrameV) -> bool {
    spec_token(f) matches Ok(t) && eq_ignore_case(t, kw_dbfilename())
}

/// The CONFIG GET parameter walk is order-blind: when it succeeds, each
/// flag records only whether its name occurs among the parameters, so
/// the response follows its fixed dir-before-dbfilename shape however
/// the names were ordered in the request.
pub proof fn lemma_config_flags_order_blind(arr: Seq<FrameV>, i: int, dir: bool, file_name: bool)
    requires
        0 <= i,
    ensures
        ({
            match spec_config_flags(arr, i, dir, file_name) {
                Ok(c) => c == (CmdV::Config {
                    dir: dir || exists|j: int| i <= j < arr.len() && names_dir(#[trigger] arr[j]),
                    file_name: file_name || exists|j: int|
                        i <= j < arr.len() && names_dbfilename(#[trigger] arr[j]),
                }),
                Err(_) => true,
            }
        }),
    decreases arr.len() - i,
{
    if i >= arr.len() {
    } else {
        match spec_token(arr[i]) {
            Err(_) => {},
            Ok(t) => {
                assert(lower_bytes(t).len() == t.len());
                assert(lower_bytes(kw_dir()).len() == 3);
                assert(lower_bytes(kw_dbfilename()).len() == 10);
                if eq_ignore_case(t, kw_dir()) {
                    lemma_config_flags_order_blind(arr, i + 1, true, file_name);
                    assert(names_dir(arr[i]));
                    assert(exists|j: int| i <= j < arr.len() && names_dir(#[trigger] arr[j]));
                    assert((exists|j: int|
                        i <= j < arr.len() && names_dbfilename(#[trigger] arr[j])) == (exists|
                        j: int,
                    | i + 1 <= j < arr.len() && names_dbfilename(#[trigger] arr[j]))) by {
                        if exists|j: int| i <= j < arr.len() && names_dbfilename(
                            #[trigger] arr[j],
                        ) {
                            let j = choose|j: int|
                                i <= j < arr.len() && names_dbfilename(#[trigger] arr[j]);
                            assert(j != i);
                            assert(i + 1 <= j < arr.len() && names_dbfilename(arr[j]));
                        }
                    }
                } else if eq_ignore_case(t, kw_dbfilename()) {
                    lemma_config_flags_order_blind(arr, i + 1, dir, true);
                    assert(names_dbfilename(arr[i]));
                    assert(exists|j: int|
                        i <= j < arr.len() && names_dbfilename(#[trigger] arr[j]));
                    assert((exists|j: int| i <= j < arr.len() && names_dir(#[trigger] arr[j]))
                        == (exists|j: int|
                        i + 1 <= j < arr.len() && names_dir(#[trigger] arr[j]))) by {
                        if exists|j: int| i <= j < arr.len() && names_dir(#[trigger] arr[j]) {
                            let j = choose|j: int|
                                i <= j < arr.len() && names_dir(#[trigger] arr[j]);
                            assert(j != i);
                            assert(i + 1 <= j < arr.len() && names_dir(arr[j]));
                        }
                    }
                }
            },
        }
    }
}

/// Case-insensitivity of the verb: two request arrays that differ only
/// in the ASCII case of their (UTF-8) verb token are interpreted alike.
pub proof fn lemma_verb_case_insensitive(s: Seq<u8>, t: Seq<u8>, rest: Seq<FrameV>)
    requires
        vstd::utf8::valid_utf8(s),
        vstd::utf8::valid_utf8(t),
        eq_ignore_case(s, t),
    ensures
        spec_from_array(seq![FrameV::Bulk(s)] + rest) == spec_from_array(
            seq![FrameV::Bulk(t)] + rest,
        ),
{
    let a1 = seq![FrameV::Bulk(s)] + rest;
    let a2 = seq![FrameV::Bulk(t)] + rest;
    assert(a1.len() == a2.len());
    assert(a1[0] == FrameV::Bulk(s));
    assert(a2[0] == FrameV::Bulk(t));
    assert(forall|j: int| 1 <= j < a1.len() ==> a1[j] == rest[j - 1] && a2[j] == rest[j - 1]);
    assert(spec_token(a1[0]) == Ok::<Seq<u8>, CmdError>(s));
    assert(spec_token(a2[0]) == Ok::<Seq<u8>, CmdError>(t));
    lemma_config_flags_congruent(a1, a2, 2, false, false);
}

// Executable byte strings for the verbs and option words.
fn ping_bytes() -> (r: Vec<u8>)
    ensures
        r@ == kw_ping(),
{
    let mut v: Vec<u8> = Vec::new();
    v.push(112);
    v.push(105);
    v.push(110);
    v.push(103);
    proof {
        assert(v@ =~= kw_ping());
    }
    v
}

fn echo_bytes() -> (r: Vec<u8>)
    ensures
        r@ == kw_echo(),
{
    let mut v: Vec<u8> = Vec::new();
    v.push(101);
    v.push(99);
    v.push(104);
    v.push(111);
    proof {
        assert(v@ =~= kw_echo());
    }
    v
}

fn get_bytes() -> (r: Vec<u8>)
    ensures
        r@ == kw_get(),
{
    let mut v: Vec<u8> = Vec::new();
    v.push(103);
    v.push(101);
    v.push(116);
    proof {
        assert(v@ =~= kw_get());
    }
    v
}

fn set_bytes() -> (r: Vec<u8>)
    ensures
        r@ == kw_set(),
{
    let mut v: Vec<u8> = Vec::new();
    v.push(115);
    v.push(101);
    v.push(116);
    proof {
        assert(v@ =~= kw_set());
    }
    v
}

fn px_bytes() -> (r: Vec<u8>)
    ensures
        r@ == kw_px(),
{
    let mut v: Vec<u8> = Vec::new();
    v.push(112);
    v.push(120);
    proof {
        assert(v@ =~= kw_px());
    }
    v
}

fn config_bytes() -> (r: Vec<u8>)
    ensures
        r@ == kw_config(),
{
    let mut v: Vec<u8> = Vec::new();
    v.push(99);
    v.push(111);
    v.push(110);
    v.push(102);
    v.push(105);
    v.push(103);
    proof {
        assert(v@ =~= kw_config());
    }
    v
}

fn dir_bytes() -> (r: Vec<u8>)
    ensures
        r@ == kw_dir(),
{
    let mut v: Vec<u8> = Vec::new();
    v.push(100);
    v.push(105);
    v.push(114);
    proof {
        assert(v@ =~= kw_dir());
    }
    v
}

fn dbfilename_bytes() -> (r: Vec<u8>)
    ensures
        r@ == kw_dbfilename(),
{
    let mut v: Vec<u8> = Vec::new();
    v.push(100);
    v.push(98);
    v.push(102);
    v.push(105);
    v.push(108);
    v.push(101);
    v.push(110);
    v.push(97);
    v.push(109);
    v.push(101);
    proof {
        assert(v@ =~= kw_dbfilename());
    }
    v
}

/// Reads one command token out of a frame.
fn token(f: &Frame) -> (r: Result<Vec<u8>, CmdError>)
    ensures
        match r {
            Ok(t) => spec_token(f@) == Ok::<Seq<u8>, CmdError>(t@),
            Err(e) => spec_token(f@) == Err::<Seq<u8>, CmdError>(e),
        },
{
    let bytes = match f.into_bytes() {
        Ok(b) => b,
        Err(e) => {
            return Err(CmdError::TokenNotBytes(e));
        },
    };
    if is_valid_utf8(&bytes) {
        Ok(bytes)
    } else {
        Err(CmdError::InvalidUtf8)
    }
}

impl CMD {
    /// Interprets a frame as a command.
    ///
    /// A bare simple frame is accepted only as a case-insensitive
    /// `ping`; other bare scalars are rejected; an array is read as a
    /// verb and its arguments, with the exact success and failure
    /// conditions of [`spec_try_from`].
    #[verifier::loop_isolation(false)]
    pub fn try_from(value: &Frame) -> (r: Result<CMD, CmdError>)
        ensures
            match r {
                Ok(c) => spec_try_from(value@) == Ok::<CmdV, CmdError>(c@),
                Err(e) => spec_try_from(value@) == Err::<CmdV, CmdError>(e),
            },
    {
        match value {
            Frame::Simple(s) => {
                let p = ping_bytes();
                if bytes_eq_ignore_case(s, &p) {
                    Ok(CMD::Ping)
                } else {
                    Err(CmdError::InvalidCommand)
                }
            },
            Frame::Error(_) => Err(CmdError::ErrorFrame),
            Frame::Integer(_) => Err(CmdError::IntegerFrame),
            Frame::Null => Err(CmdError::NullFrame),
            Frame::Bulk(bytes) => {
                if !is_valid_utf8(bytes) {
                    return Err(CmdError::InvalidUtf8);
                }
                let p = ping_bytes();
                if bytes_eq_ignore_case(bytes, &p) {
                    Ok(CMD::Ping)
                } else {
                    Err(CmdError::InvalidCommand)
                }
            },
            Frame::Array(arr) => {
                proof {
                    lemma_frames_view(arr@);
                }
                from_vec_cmd(arr)
            },
        }
    }
}

/// Interprets a request array: the first token names the verb, compared
/// case-insensitively; the rest are its arguments.
#[verifier::loop_isolation(false)]
fn from_vec_cmd(arr: &Vec<Frame>) -> (r: Result<CMD, CmdError>)
    ensures
        match r {
            Ok(c) => spec_from_array(frames_view(arr@)) == Ok::<CmdV, CmdError>(c@),
            Err(e) => spec_from_array(frames_view(arr@)) == Err::<CmdV, CmdError>(e),
        },
{
    let ghost fvs = frames_view(arr@);
    proof {
        lemma_frames_view(arr@);
    }
    if arr.len() == 0 {
        return Err(CmdError::EmptyArray);
    }
    let verb = match token(&arr[0]) {
        Ok(t) => t,
        Err(e) => {
            return Err(e);
        },
    };
    let kw = ping_bytes();
    if bytes_eq_ignore_case(&verb, &kw) {
        return Ok(CMD::Ping);
    }
    let kw = echo_bytes();
    if bytes_eq_ignore_case(&verb, &kw) {
        if arr.len() < 2 {
            let m: Vec<u8> = Vec::new();
            proof {
                assert(m@ =~= Seq::<u8>::empty());
            }
            return Ok(CMD::Echo(m));
        }
        let m = match token(&arr[1]) {
            Ok(t) => t,
            Err(e) => {
                return Err(e);
            },
        };
        return Ok(CMD::Echo(m));
    }
    let kw = get_bytes();
    if bytes_eq_ignore_case(&verb, &kw) {
        if arr.len() < 2 {
            return Err(CmdError::GetWithoutKey);
        }
        let k = match token(&arr[1]) {
            Ok(t) => t,
            Err(e) => {
                return Err(e);
            },
        };
        return Ok(CMD::Get { key: k });
    }
    let kw = set_bytes();
    if bytes_eq_ignore_case(&verb, &kw) {
        if arr.len() < 3 {
            return Err(CmdError::SetWithoutKeyOrValue);
        }
        let k = match token(&arr[1]) {
            Ok(t) => t,
            Err(e) => {
                return Err(e);
            },
        };
        let v = match arr[2].into_bytes() {
            Ok(b) => b,
            Err(e) => {
                return Err(CmdError::TokenNotBytes(e));
            },
        };
        if arr.len() == 3 {
            return Ok(CMD::SetCmd { key: k, value: v, expire: None });
        }
        let px = match token(&arr[3]) {
            Ok(t) => t,
            Err(e) => {
                return Err(e);
            },
        };
        let kw_p = px_bytes();
        if !bytes_eq_ignore_case(&px, &kw_p) {
            return Err(CmdError::InvalidTimeSyntax);
        }
        if arr.len() < 5 {
            return Err(CmdError::InvalidMillis);
        }
        let ms = match token(&arr[4]) {
            Ok(t) => t,
            Err(e) => {
                return Err(e);
            },
        };
        let t = match parse_u64(&ms) {
            Some(t) => t,
            None => {
                return Err(CmdError::InvalidMillis);
            },
        };
        return Ok(CMD::SetCmd { key: k, value: v, expire: Some(t) });
    }
    let kw = config_bytes();
    if bytes_eq_ignore_case(&verb, &kw) {
        if arr.len() < 3 {
            return Err(CmdError::ConfigArity);
        }
        let sub = match token(&arr[1]) {
            Ok(t) => t,
            Err(e) => {
                return Err(e);
            },
        };
        let kw_g = get_bytes();
        if !bytes_eq_ignore_case(&sub, &kw_g) {
            return Err(CmdError::ConfigNotGet);
        }
        let mut dir = false;
        let mut file_name = false;
        let n = arr.len();
        let mut i: usize = 2;
        let kw_d = dir_bytes();
        let kw_f = dbfilename_bytes();
        while i < n
            invariant
                2 <= i <= n,
                spec_config_flags(fvs, 2, false, false) == spec_config_flags(
                    fvs,
                    i as int,
                    dir,
                    file_name,
                ),
            decreases n - i,
        {
            let t = match token(&arr[i]) {
                Ok(t) => t,
                Err(e) => {
                    return Err(e);
                },
            };
            if bytes_eq_ignore_case(&t, &kw_d) {
                dir = true;
            } else if bytes_eq_ignore_case(&t, &kw_f) {
                file_name = true;
            } else {
                return Err(CmdError::UnimplementedConfig);
            }
            i = i + 1;
        }
        return Ok(CMD::Config { dir, file_name });
    }
    Err(CmdError::UnimplementedCommand)
}

} // verus!
