//! The request router: classifies an HTTP method, a path of the shape
//! `/{key}`, and an optional body into exactly one outcome — a store
//! operation or a terminal error response — and translates the operation's
//! result back to a status and body.
//!
//! Outcomes: a malformed path or an unsupported method is a 400 with no
//! store call; a read returns 200 with the document or 404 when absent; a
//! write or patch returns 204 with an empty body; a write body that is
//! missing or not JSON is a 400, a patch body that is missing is a 400 and
//! one that cannot be parsed as JSON a 415. Patching a missing key merges
//! onto the empty object and creates the record.

use vstd::prelude::*;

use crate::clock::now_rfc3339;
use crate::merge::merge;
use crate::parse::{parse_json, spec_parse_json};
use crate::ser::{spec_ser, to_bytes};
use crate::store::{RecordModel, Store};

verus! {

/// The HTTP methods the router distinguishes; every other method is
/// `Other`.
pub enum Method {
    Get,
    Post,
    Delete,
    Patch,
    Other,
}

/// An HTTP response: a status code and a body. The body is empty on every
/// path but a successful read.
pub struct Response {
    pub status: u16,
    pub body: Vec<u8>,
}

/// The path matches the single route template `/{key}`: a slash followed
/// by a non-empty key with no further slash.
pub open spec fn path_wf(p: Seq<u8>) -> bool {
    p.len() >= 2 && p[0] == '/' as u8 && forall|i: int| 1 <= i < p.len() ==> p[i] != '/' as u8
}

/// The key segment of a path of the shape `/{key}`.
pub open spec fn key_of(p: Seq<u8>) -> Seq<u8> {
    p.subrange(1, p.len() as int)
}

/// What handling a request must yield: `pre` and `post` are the store
/// before and after, and `ts` is the timestamp stamped on any write. A
/// write or patch succeeds exactly when its body is valid JSON text, and
/// stores exactly the document that body spells.
pub open spec fn handle_spec(
    pre: Map<Seq<u8>, RecordModel>,
    method: Method,
    p: Seq<u8>,
    body: Option<Seq<u8>>,
    ts: Seq<u8>,
    post: Map<Seq<u8>, RecordModel>,
    status: u16,
    rbody: Seq<u8>,
) -> bool {
    if !path_wf(p) {
        status == 400 && post == pre && rbody.len() == 0
    } else {
        let k = key_of(p);
        match method {
            Method::Get => post == pre && (if pre.contains_key(k) {
                status == 200 && rbody == spec_ser(pre[k].value)
            } else {
                status == 404 && rbody.len() == 0
            }),
            Method::Delete => status == 204 && post == pre.remove(k) && rbody.len() == 0,
            Method::Post => rbody.len() == 0 && (match body {
                None => status == 400 && post == pre,
                Some(bs) => match spec_parse_json(bs) {
                    Some(d) => status == 204 && post == pre.insert(
                        k,
                        (RecordModel { value: d, written_at: ts }),
                    ),
                    None => status == 400 && post == pre,
                },
            }),
            Method::Patch => rbody.len() == 0 && (match body {
                None => status == 400 && post == pre,
                Some(bs) => match spec_parse_json(bs) {
                    Some(d) => status == 204 && post == pre.insert(
                        k,
                        (RecordModel {
                            value: merge(Store::patch_base(pre, k), d),
                            written_at: ts,
                        }),
                    ),
                    None => status == 415 && post == pre,
                },
            }),
            Method::Other => status == 400 && post == pre && rbody.len() == 0,
        }
    }
}

/// The view of an optional body.
pub open spec fn body_view(body: Option<&Vec<u8>>) -> Option<Seq<u8>> {
    match body {
        Some(b) => Some(b@),
        None => None,
    }
}

/// Extracts the key from a path of the shape `/{key}`.
#[verifier::loop_isolation(false)]
pub fn split_path(path: &Vec<u8>) -> (r: Option<Vec<u8>>)
    ensures
        match r {
            Some(k) => path_wf(path@) && k@ == key_of(path@),
            None => !path_wf(path@),
        },
{
    if path.len() < 2 || path[0] != '/' as u8 {
        return None;
    }
    let mut k: Vec<u8> = Vec::new();
    let mut i: usize = 1;
    while i < path.len()
        invariant
            1 <= i <= path@.len(),
            k@ == path@.subrange(1, i as int),
            forall|t: int| 1 <= t < i ==> path@[t] != '/' as u8,
        decreases path@.len() - i,
    {
        if path[i] == '/' as u8 {
            return None;
        }
        k.push(path[i]);
        proof {
            assert(k@ =~= path@.subrange(1, i + 1));
        }
        i += 1;
    }
    proof {
        assert(k@ =~= key_of(path@));
    }
    Some(k)
}

/// Handles one request against the store, stamping any write with the
/// caller-supplied time.
pub fn handle(
    store: &mut Store,
    method: Method,
    path: &Vec<u8>,
    body: Option<&Vec<u8>>,
    now: Vec<u8>,
) -> (r: Response)
    requires
        old(store).wf(),
    ensures
        final(store).wf(),
        handle_spec(
            old(store)@,
            method,
            path@,
            body_view(body),
            now@,
            final(store)@,
            r.status,
            r.body@,
        ),
{
    let ghost nv = now@;
    let key = match split_path(path) {
        Some(k) => k,
        None => {
            return Response { status: 400, body: Vec::new() };
        },
    };
    match method {
        Method::Get => {
            match store.get_item(&key) {
                Some(doc) => {
                    let out = to_bytes(doc);
                    Response { status: 200, body: out }
                },
                None => Response { status: 404, body: Vec::new() },
            }
        },
        Method::Delete => {
            store.delete_item(&key);
            Response { status: 204, body: Vec::new() }
        },
        Method::Post => {
            match body {
                Some(b) => {
                    match parse_json(b) {
                        Some(doc) => {
                            let ghost d = doc@;
                            store.put_item_at(&key, doc, now);
                            proof {
                                assert(store@ == old(store)@.insert(
                                    key_of(path@),
                                    (RecordModel { value: d, written_at: nv }),
                                ));
                            }
                            Response { status: 204, body: Vec::new() }
                        },
                        None => Response { status: 400, body: Vec::new() },
                    }
                },
                None => Response { status: 400, body: Vec::new() },
            }
        },
        Method::Patch => {
            match body {
                Some(b) => {
                    match parse_json(b) {
                        Some(p) => {
                            let ghost d = p@;
                            store.patch_item_at(&key, &p, now);
                            proof {
                                assert(store@ == old(store)@.insert(
                                    key_of(path@),
                                    (RecordModel {
                                        value: merge(
                                            Store::patch_base(old(store)@, key_of(path@)),
                                            d,
                                        ),
                                        written_at: nv,
                                    }),
                                ));
                            }
                            Response { status: 204, body: Vec::new() }
                        },
                        None => Response { status: 415, body: Vec::new() },
                    }
                },
                None => Response { status: 400, body: Vec::new() },
            }
        },
        Method::Other => Response { status: 400, body: Vec::new() },
    }
}

/// Handles one request, stamping any write with the current time.
pub fn handle_now(
    store: &mut Store,
    method: Method,
    path: &Vec<u8>,
    body: Option<&Vec<u8>>,
) -> (r: Response)
    requires
        old(store).wf(),
    ensures
        final(store).wf(),
        exists|ts: Seq<u8>|
            handle_spec(
                old(store)@,
                method,
                path@,
                body_view(body),
                ts,
                final(store)@,
                r.status,
                r.body@,
            ),
{
    let now = now_rfc3339();
    let ghost nv = now@;
    let r = handle(store, method, path, body, now);
    proof {
        assert(handle_spec(
            old(store)@,
            method,
            path@,
            body_view(body),
            nv,
            store@,
            r.status,
            r.body@,
        ));
    }
    r
}

} // verus!
