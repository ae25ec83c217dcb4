//! The service layer: typed requests and responses, the dispatcher that maps
//! one request to one response through a storage engine, the client-side
//! interpretation of responses, and the engine-file bookkeeping that refuses
//! to open a directory with the wrong backend.

use vstd::prelude::*;
use crate::error::{KvsError, Result};
use crate::engines::KvsEngine;
use crate::text::str_chars;

verus! {

/// One request over the wire.
#[derive(Debug, Clone, PartialEq, Eq)]
pub enum Request {
    Get { key: String },
    Put { key: String, value: String },
    Remove { key: String },
}

/// One key/value pair carried in a response.
#[derive(Debug, Clone, PartialEq, Eq)]
pub struct KvPair {
    pub key: String,
    pub value: String,
}

/// One response over the wire: an HTTP-style status, a message, and the
/// values or pairs the request produced.
#[derive(Debug, Clone, PartialEq, Eq)]
pub struct CommandResponse {
    pub status: u32,
    pub message: String,
    pub values: Vec<String>,
    pub pairs: Vec<KvPair>,
}

/// The response to a lookup: 200 with the value, 404 when the key is
/// absent, 500 with the error's message otherwise.
pub fn get_response(r: Result<Option<String>>) -> (resp: CommandResponse)
    ensures
        resp.pairs@.len() == 0,
        match r {
            Ok(Some(v)) => resp.status == 200 && resp.values@.len() == 1 && resp.values@[0]
                == v,
            Ok(None) => resp.status == 404 && resp.values@.len() == 0 && resp.message@
                == "Key not found"@,
            Err(_) => resp.status == 500 && resp.values@.len() == 0,
        },
{
    match r {
        Ok(Some(v)) => {
            let mut values: Vec<String> = Vec::new();
            values.push(v);
            CommandResponse { status: 200, message: String::new(), values, pairs: Vec::new() }
        },
        Ok(None) => CommandResponse {
            status: 404,
            message: String::from_str("Key not found"),
            values: Vec::new(),
            pairs: Vec::new(),
        },
        Err(e) => CommandResponse {
            status: 500,
            message: e.message(),
            values: Vec::new(),
            pairs: Vec::new(),
        },
    }
}

/// The response to a successful write: 200 carrying the prior value, or the
/// empty string where there was none.
pub fn put_response(prior: Option<String>) -> (resp: CommandResponse)
    ensures
        resp.status == 200,
        resp.values@.len() == 1,
        resp.pairs@.len() == 0,
        match prior {
            Some(v) => resp.values@[0] == v,
            None => resp.values@[0]@ == Seq::<char>::empty(),
        },
{
    let first = match prior {
        Some(v) => v,
        None => String::new(),
    };
    let mut values: Vec<String> = Vec::new();
    values.push(first);
    CommandResponse { status: 200, message: String::new(), values, pairs: Vec::new() }
}

/// The response to a removal: 200 on success, 404 for an absent key, 500
/// with the error's message otherwise.
pub fn remove_response(r: Result<()>) -> (resp: CommandResponse)
    ensures
        resp.values@.len() == 0,
        resp.pairs@.len() == 0,
        match r {
            Ok(()) => resp.status == 200,
            Err(e) => if e == KvsError::KeyNotFound {
                resp.status == 404 && resp.message@ == "Key not found"@
            } else {
                resp.status == 500
            },
        },
{
    match r {
        Ok(()) => CommandResponse {
            status: 200,
            message: String::new(),
            values: Vec::new(),
            pairs: Vec::new(),
        },
        Err(e) => match e {
            KvsError::KeyNotFound => CommandResponse {
                status: 404,
                message: String::from_str("Key not found"),
                values: Vec::new(),
                pairs: Vec::new(),
            },
            other => CommandResponse {
                status: 500,
                message: other.message(),
                values: Vec::new(),
                pairs: Vec::new(),
            },
        },
    }
}

/// The response to a write that failed: 500 with the error's message.
pub fn error_response(e: KvsError) -> (resp: CommandResponse)
    ensures
        resp.status == 500,
        resp.values@.len() == 0,
        resp.pairs@.len() == 0,
{
    CommandResponse { status: 500, message: e.message(), values: Vec::new(), pairs: Vec::new() }
}

/// What the dispatcher promises of engines whose behavior their map fixes:
/// the response and the map after (`post`) are functions of the request and
/// the map before (`pre`).
pub open spec fn dispatch_ok(
    pre: Map<Seq<char>, Seq<char>>,
    post: Map<Seq<char>, Seq<char>>,
    req: Request,
    resp: CommandResponse,
) -> bool {
    match req {
        Request::Get { key } => {
            &&& post == pre
            &&& (pre.contains_key(key@) ==> resp.status == 200 && resp.values@.len() == 1
                && resp.values@[0]@ == pre[key@])
            &&& (!pre.contains_key(key@) ==> resp.status == 404)
        },
        Request::Put { key, value } => {
            &&& post == pre.insert(key@, value@)
            &&& resp.status == 200
            &&& resp.values@.len() == 1
            &&& (pre.contains_key(key@) ==> resp.values@[0]@ == pre[key@])
            &&& (!pre.contains_key(key@) ==> resp.values@[0]@ == Seq::<char>::empty())
        },
        Request::Remove { key } => {
            &&& post == pre.remove(key@)
            &&& (pre.contains_key(key@) ==> resp.status == 200)
            &&& (!pre.contains_key(key@) ==> resp.status == 404)
        },
    }
}

/// Maps one request to one response through the engine: a `Get` becomes a
/// lookup, a `Put` a lookup of the prior value and then the write, a
/// `Remove` a removal.
pub fn serve_request<E: KvsEngine>(engine: &mut E, req: Request) -> (resp: CommandResponse)
    requires
        old(engine).inv(),
    ensures
        final(engine).inv(),
        E::obeys_view() ==> dispatch_ok(
            old(engine).as_map(),
            final(engine).as_map(),
            req,
            resp,
        ),
{
    match req {
        Request::Get { key } => get_response(engine.get(key)),
        Request::Put { key, value } => {
            let prior = engine.get(key.clone());
            match prior {
                Ok(p) => match engine.set(key, value) {
                    Ok(()) => put_response(p),
                    Err(e) => error_response(e),
                },
                Err(e) => error_response(e),
            }
        },
        Request::Remove { key } => {
            let ghost k = key@;
            let r = engine.remove(key);
            proof {
                if E::obeys_view() && !old(engine).as_map().contains_key(k) {
                    assert(old(engine).as_map().remove(k) =~= old(engine).as_map());
                }
            }
            remove_response(r)
        },
    }
}

/// The server core: holds the engine and answers one request at a time; an
/// accept loop hands it the requests of each connection in arrival order.
pub struct KvsServer<E: KvsEngine> {
    engine: E,
}

impl<E: KvsEngine> KvsServer<E> {
    /// The server's engine keeps its own well-formedness.
    pub closed spec fn inv(&self) -> bool {
        self.engine.inv()
    }

    /// The key/value map the server's engine holds.
    pub closed spec fn as_map(&self) -> Map<Seq<char>, Seq<char>> {
        self.engine.as_map()
    }

    /// A server over the given engine.
    pub fn new(engine: E) -> (r: KvsServer<E>)
        ensures
            r.inv() == engine.inv(),
            r.as_map() == engine.as_map(),
    {
        KvsServer { engine }
    }

    /// Read access to the engine, for persistence plumbing around the
    /// server.
    pub fn engine(&self) -> (r: &E)
        ensures
            r.inv() == self.inv(),
            r.as_map() == self.as_map(),
    {
        &self.engine
    }

    /// Answers one request: the response and the new state are fixed by the
    /// request wherever the engine's map fixes its behavior.
    pub fn serve(&mut self, req: Request) -> (resp: CommandResponse)
        requires
            old(self).inv(),
        ensures
            final(self).inv(),
            E::obeys_view() ==> dispatch_ok(old(self).as_map(), final(self).as_map(), req, resp),
    {
        serve_request(&mut self.engine, req)
    }
}

/// Interprets a lookup response on the client: 200 with a value yields the
/// value, 404 yields `None`, anything else is an error carrying the
/// server's message.
pub fn interpret_get(resp: CommandResponse) -> (r: Result<Option<String>>)
    ensures
        match r {
            Ok(Some(v)) => resp.status == 200 && resp.values@.len() >= 1 && v
                == resp.values@[0],
            Ok(None) => resp.status == 404,
            Err(e) => resp.status != 404 && (resp.status != 200 || resp.values@.len() == 0)
                && e == KvsError::StringError(resp.message),
        },
{
    if resp.status == 200 && resp.values.len() >= 1 {
        let mut values = resp.values;
        let v = values.remove(0);
        Ok(Some(v))
    } else if resp.status == 404 {
        Ok(None)
    } else {
        Err(KvsError::StringError(resp.message))
    }
}

/// Interprets a mutation response on the client: 200 is success; any other
/// status is surfaced as a textual error carrying the server's message.
pub fn interpret_mutation(resp: CommandResponse) -> (r: Result<()>)
    ensures
        match r {
            Ok(()) => resp.status == 200,
            Err(e) => resp.status != 200 && e == KvsError::StringError(resp.message),
        },
{
    if resp.status == 200 {
        Ok(())
    } else {
        Err(KvsError::StringError(resp.message))
    }
}

/// Which storage backend a directory was last opened with.
#[derive(Debug, Clone, Copy, PartialEq, Eq, Structural)]
pub enum EngineKind {
    Kvs,
    Sled,
}

/// The name written into a directory's `engine` file.
pub fn engine_name(k: EngineKind) -> (r: String)
    ensures
        k == EngineKind::Kvs ==> r@ == "kvs"@,
        k == EngineKind::Sled ==> r@ == "sled"@,
{
    match k {
        EngineKind::Kvs => String::from_str("kvs"),
        EngineKind::Sled => String::from_str("sled"),
    }
}

/// Parses the contents of an `engine` file.
pub fn parse_engine(s: &str) -> (r: Option<EngineKind>)
    ensures
        match r {
            Some(k) => (k == EngineKind::Kvs && s@ == "kvs"@) || (k == EngineKind::Sled && s@
                == "sled"@),
            None => s@ != "kvs"@ && s@ != "sled"@,
        },
{
    proof {
        reveal_strlit("kvs");
        reveal_strlit("sled");
    }
    let cs = str_chars(s);
    if cs.len() == 3 && cs[0] == 'k' && cs[1] == 'v' && cs[2] == 's' {
        proof {
            assert(s@ =~= "kvs"@);
        }
        Some(EngineKind::Kvs)
    } else if cs.len() == 4 && cs[0] == 's' && cs[1] == 'l' && cs[2] == 'e' && cs[3] == 'd' {
        proof {
            assert(s@ =~= "sled"@);
        }
        Some(EngineKind::Sled)
    } else {
        proof {
            assert(s@ != "kvs"@) by {
                if s@ == "kvs"@ {
                    assert(cs@.len() == 3 && cs@[0] == 'k' && cs@[1] == 'v' && cs@[2] == 's');
                }
            }
            assert(s@ != "sled"@) by {
                if s@ == "sled"@ {
                    assert(cs@.len() == 4 && cs@[0] == 's' && cs@[1] == 'l' && cs@[2] == 'e'
                        && cs@[3] == 'd');
                }
            }
        }
        None
    }
}

/// Decides which engine to run: the one the directory records, the one the
/// caller chose, or the default. A directory recorded for one engine is
/// never opened with another: that mismatch fails before anything is
/// created.
pub fn resolve_engine(stored: Option<EngineKind>, chosen: Option<EngineKind>) -> (r: Result<
    EngineKind,
>)
    ensures
        match stored {
            None => r == Ok::<EngineKind, KvsError>(
                match chosen {
                    Some(c) => c,
                    None => EngineKind::Kvs,
                },
            ),
            Some(s0) => match chosen {
                None => r == Ok::<EngineKind, KvsError>(s0),
                Some(c) => if c == s0 {
                    r == Ok::<EngineKind, KvsError>(c)
                } else {
                    r is Err
                },
            },
        },
{
    match stored {
        None => match chosen {
            Some(c) => Ok(c),
            None => Ok(EngineKind::Kvs),
        },
        Some(s0) => match chosen {
            None => Ok(s0),
            Some(c) => {
                if c == s0 {
                    Ok(c)
                } else {
                    Err(KvsError::StringError(String::from_str("Wrong engine!")))
                }
            },
        },
    }
}

} // verus!

