//! The dispatch step of the pipeline: one parsed frame in, one response
//! out, with the store mutation in between, and the per-read loop that
//! carves pipelined frames out of a buffer.
//!
//! Socket reads and writes belong to the caller; nothing here suspends
//! or holds the store lock around anything but the lookup or insert
//! itself.
use vstd::prelude::*;

use crate::cmd::CMD;
use crate::cmd::CmdV;
use crate::cmd::kw_dbfilename;
use crate::cmd::kw_dir;
use crate::cmd::spec_try_from;
use crate::rdb::RDB;
use crate::resp::Frame;
use crate::resp::FrameV;
use crate::resp::ParseError;
use crate::resp::bulks_utf8;
use crate::resp::clamp_pos;
use crate::resp::frames_view;
use crate::resp::lemma_frames_view;
use crate::resp::push_all;
use crate::resp::spec_parse;
use crate::resp::spec_ser;
use crate::store::ItemV;
use crate::store::SharedStore;
use crate::store::Store;
use crate::store::spec_expired;
use crate::store::spec_new_item;
use crate::text::lemma_ascii_valid_utf8;
use vstd::utf8::encode_utf8;
use vstd::utf8::valid_utf8;

verus! {

broadcast use vstd::utf8::encode_utf8_valid_utf8;

/// The `PONG` status line.
pub open spec fn pong_frame() -> FrameV {
    FrameV::Simple(seq![80u8, 79u8, 78u8, 71u8])
}

/// The `OK` status line.
pub open spec fn ok_frame() -> FrameV {
    FrameV::Simple(seq![79u8, 75u8])
}

/// The description sent when a frame that is no command cannot even be
/// echoed back.
pub open spec fn ser_fail_msg() -> Seq<u8> {
    encode_utf8("bulk payload is not valid utf-8"@)
}

/// The description sent for CONFIG GET when no snapshot location was
/// configured at startup.
pub open spec fn unconfigured_msg() -> Seq<u8> {
    encode_utf8("no snapshot configuration"@)
}

/// The CONFIG GET response: the requested name/value pairs, dir's pair
/// always before dbfilename's — the order follows the flags alone, not
/// the order the parameters were requested in.
pub open spec fn spec_config_frame(dir: bool, file_name: bool, conf: RDB) -> FrameV {
    FrameV::Array(
        (if dir {
            seq![FrameV::Bulk(kw_dir()), FrameV::Bulk(encode_utf8(conf.dir@))]
        } else {
            Seq::empty()
        }) + (if file_name {
            seq![FrameV::Bulk(kw_dbfilename()), FrameV::Bulk(encode_utf8(conf.file_name@))]
        } else {
            Seq::empty()
        }),
    )
}

/// What [`respond`] yields: the serialized response to one frame, and
/// the store's contents afterwards.
///
/// A frame that is no command is echoed back as-is; when it cannot be
/// re-serialized, an error frame naming the failure goes out instead. A
/// GET whose stored value has no textual rendering answers with nothing
/// at all — the empty byte string. Only SET changes the store.
pub open spec fn spec_respond(f: FrameV, m: Map<Seq<u8>, ItemV>, conf: Option<RDB>, now: u64) -> (
    Seq<u8>,
    Map<Seq<u8>, ItemV>,
) {
    match spec_try_from(f) {
        Err(_) => if bulks_utf8(f) {
            (spec_ser(f), m)
        } else {
            (spec_ser(FrameV::Error(ser_fail_msg())), m)
        },
        Ok(c) => match c {
            CmdV::Ping => (spec_ser(pong_frame()), m),
            CmdV::Echo(msg) => if valid_utf8(msg) {
                (spec_ser(FrameV::Bulk(msg)), m)
            } else {
                (Seq::empty(), m)
            },
            CmdV::SetCmd { key, value, expire } => (
                spec_ser(ok_frame()),
                m.insert(key, spec_new_item(value, expire, now)),
            ),
            CmdV::Get { key } => if m.contains_key(key) && !spec_expired(m[key], now) {
                if valid_utf8(m[key].value) {
                    (spec_ser(FrameV::Bulk(m[key].value)), m)
                } else {
                    (Seq::empty(), m)
                }
            } else {
                (spec_ser(FrameV::Null), m)
            },
            CmdV::Config { dir, file_name } => match conf {
                Some(c2) => (spec_ser(spec_config_frame(dir, file_name, c2)), m),
                None => (spec_ser(FrameV::Error(unconfigured_msg())), m),
            },
        },
    }
}

/// `PONG`, as a frame value.
fn make_pong() -> (r: Frame)
    ensures
        r@ == pong_frame(),
{
    let mut v: Vec<u8> = Vec::new();
    v.push(80);
    v.push(79);
    v.push(78);
    v.push(71);
    proof {
        assert(v@ =~= seq![80u8, 79u8, 78u8, 71u8]);
    }
    Frame::Simple(v)
}

/// `OK`, as a frame value.
fn make_ok() -> (r: Frame)
    ensures
        r@ == ok_frame(),
{
    let mut v: Vec<u8> = Vec::new();
    v.push(79);
    v.push(75);
    proof {
        assert(v@ =~= seq![79u8, 75u8]);
    }
    Frame::Simple(v)
}

/// Computes the response to one parsed frame and applies its store
/// mutation, exactly as [`spec_respond`] says. The store stays well
/// formed; nothing else about it changes unless the frame was a SET.
pub fn respond(frame: &Frame, store: &mut Store, conf: &Option<RDB>, now: u64) -> (r: Vec<u8>)
    requires
        old(store).wf(),
    ensures
        final(store).wf(),
        (r@, final(store)@) == spec_respond(frame@, old(store)@, *conf, now),
{
    let cmd = match CMD::try_from(frame) {
        Ok(c) => c,
        Err(_) => {
            match frame.serialize() {
                Ok(bytes) => {
                    return bytes;
                },
                Err(_) => {
                    let msg = vstd::slice::slice_to_vec("bulk payload is not valid utf-8".as_bytes());
                    let ef = Frame::Error(msg);
                    match ef.serialize() {
                        Ok(bytes) => {
                            return bytes;
                        },
                        Err(_) => {
                            // An error frame always serializes.
                            proof {
                                assert(false);
                            }
                            return Vec::new();
                        },
                    }
                },
            }
        },
    };
    match cmd {
        CMD::Ping => {
            let f = make_pong();
            match f.serialize() {
                Ok(bytes) => bytes,
                Err(_) => {
                    // A simple status line always serializes.
                    proof {
                        assert(false);
                    }
                    Vec::new()
                },
            }
        },
        CMD::Echo(msg) => {
            let f = Frame::Bulk(msg);
            match f.serialize() {
                Ok(bytes) => bytes,
                // Never reached: the interpreter only accepts UTF-8
                // echo messages.
                Err(_) => Vec::new(),
            }
        },
        CMD::SetCmd { key, value, expire } => {
            store.set(key, value, expire, now);
            let f = make_ok();
            match f.serialize() {
                Ok(bytes) => bytes,
                Err(_) => {
                    // A simple status line always serializes.
                    proof {
                        assert(false);
                    }
                    Vec::new()
                },
            }
        },
        CMD::Get { key } => {
            match store.get(&key, now) {
                Some(v) => {
                    let f = Frame::Bulk(v);
                    match f.serialize() {
                        Ok(bytes) => bytes,
                        // The sharp edge: a stored value that is not
                        // valid UTF-8 has no rendering, so nothing is
                        // sent at all.
                        Err(_) => Vec::new(),
                    }
                },
                None => {
                    match Frame::Null.serialize() {
                        Ok(bytes) => bytes,
                        Err(_) => {
                            // A null frame always serializes.
                            proof {
                                assert(false);
                            }
                            Vec::new()
                        },
                    }
                },
            }
        },
        CMD::Config { dir, file_name } => {
            let c2 = match conf {
                Some(c2) => c2,
                None => {
                    let msg = vstd::slice::slice_to_vec("no snapshot configuration".as_bytes());
                    let ef = Frame::Error(msg);
                    match ef.serialize() {
                        Ok(bytes) => {
                            return bytes;
                        },
                        Err(_) => {
                            // An error frame always serializes.
                            proof {
                                assert(false);
                            }
                            return Vec::new();
                        },
                    }
                },
            };
            let mut elems: Vec<Frame> = Vec::new();
            if dir {
                let mut name: Vec<u8> = Vec::new();
                name.push(100);
                name.push(105);
                name.push(114);
                proof {
                    assert(name@ =~= kw_dir());
                }
                elems.push(Frame::Bulk(name));
                elems.push(Frame::Bulk(vstd::slice::slice_to_vec(c2.dir.as_str().as_bytes())));
            }
            if file_name {
                let mut name: Vec<u8> = Vec::new();
                name.push(100);
                name.push(98);
                name.push(102);
                name.push(105);
                name.push(108);
                name.push(101);
                name.push(110);
                name.push(97);
                name.push(109);
                name.push(101);
                proof {
                    assert(name@ =~= kw_dbfilename());
                }
                elems.push(Frame::Bulk(name));
                elems.push(Frame::Bulk(
                    vstd::slice::slice_to_vec(c2.file_name.as_str().as_bytes()),
                ));
            }
            let f = Frame::Array(elems);
            proof {
                lemma_frames_view(elems@);
                assert(f@ == spec_config_frame(dir, file_name, *c2)) by {
                    assert(frames_view(elems@) =~= spec_config_frame(dir, file_name, *c2)->Array_0);
                }
                lemma_ascii_valid_utf8(kw_dir());
                lemma_ascii_valid_utf8(kw_dbfilename());
                crate::resp::lemma_seq_bulks_utf8(frames_view(elems@));
                assert(bulks_utf8(f@));
            }
            match f.serialize() {
                Ok(bytes) => bytes,
                Err(_) => {
                    // Every payload in the response is valid UTF-8.
                    proof {
                        assert(false);
                    }
                    Vec::new()
                },
            }
        },
    }
}

/// The parse failures that may only mean the rest of the frame has not
/// arrived yet: the buffer ran dry, or no line terminator was seen.
/// Every other failure is malformed input however much more arrives.
pub open spec fn spec_incomplete(e: ParseError) -> bool {
    e == ParseError::NoMoreBytes || e == ParseError::MissingDelimiter
}

/// What [`process_read`] yields: the concatenated responses to every
/// complete frame at the front of `b`, how far the input was consumed,
/// and the store afterwards.
///
/// Frames are served strictly in order. At the first parse failure the
/// loop stops: a possibly-incomplete frame is left unconsumed for the
/// next read to finish, while malformed bytes are consumed whole and
/// dropped.
pub open spec fn spec_process(
    b: Seq<u8>,
    pos: int,
    m: Map<Seq<u8>, ItemV>,
    conf: Option<RDB>,
    now: u64,
) -> (Seq<u8>, int, Map<Seq<u8>, ItemV>)
    decreases b.len() - pos,
{
    match spec_parse(b, pos) {
        Err(e) => (
            Seq::empty(),
            if spec_incomplete(e) {
                pos
            } else {
                b.len() as int
            },
            m,
        ),
        Ok((f, p2)) => {
            let step = spec_respond(f, m, conf, now);
            let rest = spec_process(b, clamp_pos(b, pos + 1, p2), step.1, conf, now);
            (step.0 + rest.0, rest.1, rest.2)
        },
    }
}

/// Serves one read's worth of bytes against the store: parses frames
/// off the front, responds to each, and stops at the first failure,
/// exactly as [`spec_process`] says. Returns the concatenated responses
/// and how much of the input was consumed.
#[verifier::loop_isolation(false)]
pub fn process_read(input: &Vec<u8>, store: &mut Store, conf: &Option<RDB>, now: u64) -> (r: (
    Vec<u8>,
    usize,
))
    requires
        old(store).wf(),
    ensures
        final(store).wf(),
        ({
            let whole = spec_process(input@, 0, old(store)@, *conf, now);
            r.0@ == whole.0 && r.1 == whole.1 && final(store)@ == whole.2
        }),
{
    let ghost b = input@;
    let ghost m0 = old(store)@;
    let mut out: Vec<u8> = Vec::new();
    let mut pos: usize = 0;
    proof {
        assert(Seq::<u8>::empty() + spec_process(b, 0, m0, *conf, now).0 =~= spec_process(
            b,
            0,
            m0,
            *conf,
            now,
        ).0);
    }
    loop
        invariant
            pos <= input@.len(),
            store.wf(),
            ({
                let whole = spec_process(b, 0, m0, *conf, now);
                let rest = spec_process(b, pos as int, store@, *conf, now);
                whole.0 == out@ + rest.0 && whole.1 == rest.1 && whole.2 == rest.2
            }),
        decreases input@.len() - pos,
    {
        let start = pos;
        let f = match Frame::parse(input, &mut pos) {
            Ok(f) => f,
            Err(e) => {
                if e == ParseError::NoMoreBytes || e == ParseError::MissingDelimiter {
                    proof {
                        assert(out@ + Seq::<u8>::empty() =~= out@);
                    }
                    return (out, start);
                } else {
                    proof {
                        assert(out@ + Seq::<u8>::empty() =~= out@);
                    }
                    return (out, input.len());
                }
            },
        };
        let ghost p2 = pos as int;
        proof {
            assert(clamp_pos(b, start + 1, p2) == p2);
        }
        let ghost m_pre = store@;
        let resp = respond(&f, store, conf, now);
        proof {
            let step = spec_respond(f@, m_pre, *conf, now);
            let rest = spec_process(b, p2, store@, *conf, now);
            assert(spec_process(b, start as int, m_pre, *conf, now) == (
                step.0 + rest.0,
                rest.1,
                rest.2,
            ));
            assert(out@ + (step.0 + rest.0) =~= (out@ + step.0) + rest.0);
        }
        push_all(&mut out, &resp);
    }
}

impl SharedStore {
    /// Serves one parsed frame against the shared store: a short,
    /// non-suspending critical section computes the response and
    /// applies any mutation, and the lock is released before this
    /// returns — never held around socket work. The response is
    /// [`spec_respond`]'s, for the store contents the lock handed out.
    pub fn handle_frame(&self, frame: &Frame, conf: &Option<RDB>, now: u64) -> (r: Vec<u8>)
        ensures
            exists|m: Map<Seq<u8>, ItemV>|
                #![auto]
                r@ == spec_respond(frame@, m, *conf, now).0,
    {
        let (mut store, handle) = self.begin_write();
        let ghost m = store@;
        let r = respond(frame, &mut store, conf, now);
        handle.release_write(store);
        proof {
            assert(r@ == spec_respond(frame@, m, *conf, now).0);
        }
        r
    }

    /// Serves one read's worth of bytes against the shared store, as
    /// [`process_read`] does, under one short critical section.
    pub fn handle_read(&self, input: &Vec<u8>, conf: &Option<RDB>, now: u64) -> (r: (
        Vec<u8>,
        usize,
    ))
        ensures
            exists|m: Map<Seq<u8>, ItemV>|
                r.0@ == (#[trigger] spec_process(input@, 0, m, *conf, now)).0 && r.1
                    == spec_process(input@, 0, m, *conf, now).1,
    {
        let (mut store, handle) = self.begin_write();
        let ghost m = store@;
        let r = process_read(input, &mut store, conf, now);
        handle.release_write(store);
        proof {
            let whole = spec_process(input@, 0, m, *conf, now);
            assert(r.0@ == whole.0 && r.1 == whole.1);
        }
        r
    }
}

} // verus!
