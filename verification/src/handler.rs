//! The command dispatcher: one handler per client connection.
//!
//! `step_spec` is the mathematical state machine of a connection: from the
//! store, the negotiated protocol version, the configuration, one decoded
//! frame and the read instant, it gives the next store, the next version
//! and the response frame. `handle_command_at` returns exactly what
//! `step_spec` says; `handle_command` reads the wall clock once and
//! dispatches at that instant.

use vstd::prelude::*;
use vstd::string::StrSliceExecFns;
use vstd::string::StringSliceAdditionalSpecFns;
use crate::ascii::{ascii_view, ascii_bytes, lower_seq, lower_bytes, bytes_eq};
use crate::config::Config;
use crate::frame::{RespValue, FrameModel, frames_view, lemma_frames_view, append_slice};
use crate::memory::{MemoryStorage, lookup_res, lookup_after};
use crate::numtext::{is_u64_text, int_text_val, parse_u64, fmt_u64, spec_fmt_nat};
use crate::resp::{ProtocolVersion, copy_bytes};
use crate::storage::{RecModel, sat_add, now_millis};

verus! {

broadcast use vstd::std_specs::vec::group_vec_axioms;

/// The bulk-string payload of an argument frame, if it is one.
pub open spec fn arg_bulk(a: RespValue) -> Option<Seq<u8>> {
    match a {
        RespValue::BulkString(Some(b)) => Some(b@),
        _ => None,
    }
}

/// Seconds to milliseconds, saturating.
pub open spec fn sat_mul_1000(s: u64) -> u64 {
    if s > u64::MAX / 1000 {
        u64::MAX
    } else {
        (s * 1000) as u64
    }
}

/// Clamp a mathematical count into a signed 64-bit protocol integer.
pub open spec fn cap_i64(n: int) -> i64 {
    if n > i64::MAX {
        i64::MAX
    } else if n < i64::MIN {
        i64::MIN
    } else {
        n as i64
    }
}

/// What `PING` answers: `PONG`, an echoed bulk, or an argument error.
pub open spec fn ping_spec(args: Seq<RespValue>) -> FrameModel {
    if args.len() == 0 {
        FrameModel::SimpleString(ascii_view("PONG"@))
    } else if args.len() == 1 {
        match arg_bulk(args[0]) {
            Some(m) => FrameModel::BulkString(Some(m)),
            None => FrameModel::Error(ascii_view("Invalid PING argument"@)),
        }
    } else {
        FrameModel::Error(ascii_view("Wrong number of arguments for PING"@))
    }
}

/// What `SET key value [EX seconds]` does to the store and answers.
pub open spec fn set_spec(st: Map<Seq<u8>, RecModel>, args: Seq<RespValue>, now: u64)
    -> (Map<Seq<u8>, RecModel>, FrameModel) {
    if args.len() < 2 {
        (st, FrameModel::Error(ascii_view("Wrong number of arguments for SET"@)))
    } else {
        match arg_bulk(args[0]) {
            None => (st, FrameModel::Error(ascii_view("Invalid key"@))),
            Some(k) => match arg_bulk(args[1]) {
                None => (st, FrameModel::Error(ascii_view("Invalid value"@))),
                Some(v) => {
                    if args.len() >= 4 && arg_bulk(args[2]) is Some && arg_bulk(args[3]) is Some
                        && lower_seq(arg_bulk(args[2])->Some_0) == ascii_view("ex"@) {
                        let t = arg_bulk(args[3])->Some_0;
                        if is_u64_text(t) {
                            let ttl_ms = sat_mul_1000(int_text_val(t) as u64);
                            (
                                st.insert(k, RecModel {
                                    data: v,
                                    expires_at: Some(sat_add(now, ttl_ms)),
                                }),
                                FrameModel::SimpleString(ascii_view("OK"@)),
                            )
                        } else {
                            (st, FrameModel::Error(ascii_view("Invalid TTL"@)))
                        }
                    } else {
                        (
                            st.insert(k, RecModel { data: v, expires_at: None }),
                            FrameModel::SimpleString(ascii_view("OK"@)),
                        )
                    }
                },
            },
        }
    }
}

/// What `GET key` does and answers at the read instant.
pub open spec fn get_spec(st: Map<Seq<u8>, RecModel>, args: Seq<RespValue>, now: u64)
    -> (Map<Seq<u8>, RecModel>, FrameModel) {
    if args.len() != 1 {
        (st, FrameModel::Error(ascii_view("Wrong number of arguments for GET"@)))
    } else {
        match arg_bulk(args[0]) {
            None => (st, FrameModel::Error(ascii_view("Invalid key"@))),
            Some(k) => (
                lookup_after(st, k, now),
                match lookup_res(st, k, now) {
                    Some(d) => FrameModel::BulkString(Some(d)),
                    None => FrameModel::BulkString(None),
                },
            ),
        }
    }
}

/// The sequential effect of `DEL` over `args[i..]`: the store after the
/// removals and how many removed keys existed, non-bulk arguments skipped.
pub open spec fn del_fold(st: Map<Seq<u8>, RecModel>, args: Seq<RespValue>, i: int)
    -> (Map<Seq<u8>, RecModel>, int)
    decreases args.len() - i,
{
    if i < 0 || i >= args.len() {
        (st, 0)
    } else {
        match arg_bulk(args[i]) {
            None => del_fold(st, args, i + 1),
            Some(k) => {
                let found: int = if st.contains_key(k) {
                    1
                } else {
                    0
                };
                let rest = del_fold(st.remove(k), args, i + 1);
                (rest.0, found + rest.1)
            },
        }
    }
}

/// What `DEL key [key ...]` does and answers.
pub open spec fn del_spec(st: Map<Seq<u8>, RecModel>, args: Seq<RespValue>)
    -> (Map<Seq<u8>, RecModel>, FrameModel) {
    if args.len() == 0 {
        (st, FrameModel::Error(ascii_view("Wrong number of arguments for DEL"@)))
    } else {
        let folded = del_fold(st, args, 0);
        (folded.0, FrameModel::Integer(cap_i64(folded.1)))
    }
}

/// The sequential effect of `EXISTS` over `args[i..]`: each occurrence is
/// checked (and an expired record evicted) in turn, so a key given twice
/// counts twice.
pub open spec fn exists_fold(st: Map<Seq<u8>, RecModel>, args: Seq<RespValue>, i: int, now: u64)
    -> (Map<Seq<u8>, RecModel>, int)
    decreases args.len() - i,
{
    if i < 0 || i >= args.len() {
        (st, 0)
    } else {
        match arg_bulk(args[i]) {
            None => exists_fold(st, args, i + 1, now),
            Some(k) => {
                let found: int = if lookup_res(st, k, now) is Some {
                    1
                } else {
                    0
                };
                let rest = exists_fold(lookup_after(st, k, now), args, i + 1, now);
                (rest.0, found + rest.1)
            },
        }
    }
}

/// What `EXISTS key [key ...]` does and answers at the read instant.
pub open spec fn exists_spec(st: Map<Seq<u8>, RecModel>, args: Seq<RespValue>, now: u64)
    -> (Map<Seq<u8>, RecModel>, FrameModel) {
    if args.len() == 0 {
        (st, FrameModel::Error(ascii_view("Wrong number of arguments for EXISTS"@)))
    } else {
        let folded = exists_fold(st, args, 0, now);
        (folded.0, FrameModel::Integer(cap_i64(folded.1)))
    }
}

/// The backend identifier of a storage section.
pub open spec fn backend_name(s: crate::config::StorageConfig) -> Seq<u8> {
    match s {
        crate::config::StorageConfig::Memory => ascii_view("memory"@),
        crate::config::StorageConfig::Lmdb { .. } => ascii_view("lmdb"@),
        crate::config::StorageConfig::S3 { .. } => ascii_view("s3"@),
    }
}

/// A key-value pair of bulk strings.
pub open spec fn bulk2(k: Seq<u8>, v: Seq<u8>) -> Seq<FrameModel> {
    seq![FrameModel::BulkString(Some(k)), FrameModel::BulkString(Some(v))]
}

/// The `(key, value)` bulks one `CONFIG GET` parameter contributes,
/// matched case-insensitively; unknown parameters contribute nothing and
/// `*` expands to the whole table.
pub open spec fn config_pairs(cfg: Config, p: Seq<u8>) -> Seq<FrameModel> {
    if p == ascii_view("port"@) {
        bulk2(ascii_view("port"@), spec_fmt_nat(cfg.server.port as nat))
    } else if p == ascii_view("bind"@) || p == ascii_view("host"@) {
        bulk2(ascii_view("bind"@), vstd::utf8::encode_utf8(cfg.server.host@))
    } else if p == ascii_view("storage"@) || p == ascii_view("storage-backend"@) {
        bulk2(ascii_view("storage-backend"@), backend_name(cfg.storage))
    } else if p == ascii_view("maxmemory"@) {
        bulk2(ascii_view("maxmemory"@), ascii_view("0"@))
    } else if p == ascii_view("maxmemory-policy"@) {
        bulk2(ascii_view("maxmemory-policy"@), ascii_view("noeviction"@))
    } else if p == ascii_view("save"@) {
        bulk2(ascii_view("save"@), ascii_view(""@))
    } else if p == ascii_view("appendonly"@) {
        bulk2(ascii_view("appendonly"@), ascii_view("no"@))
    } else if p == ascii_view("databases"@) {
        bulk2(ascii_view("databases"@), ascii_view("1"@))
    } else if p == ascii_view("*"@) {
        bulk2(ascii_view("port"@), spec_fmt_nat(cfg.server.port as nat))
            + bulk2(ascii_view("bind"@), vstd::utf8::encode_utf8(cfg.server.host@))
            + bulk2(ascii_view("storage-backend"@), backend_name(cfg.storage))
            + bulk2(ascii_view("maxmemory"@), ascii_view("0"@))
            + bulk2(ascii_view("maxmemory-policy"@), ascii_view("noeviction"@))
            + bulk2(ascii_view("save"@), ascii_view(""@))
            + bulk2(ascii_view("appendonly"@), ascii_view("no"@))
            + bulk2(ascii_view("databases"@), ascii_view("1"@))
    } else {
        Seq::empty()
    }
}

/// The concatenated contributions of the parameters `args[i..]`.
pub open spec fn config_fold(cfg: Config, args: Seq<RespValue>, i: int) -> Seq<FrameModel>
    decreases args.len() - i,
{
    if i < 0 || i >= args.len() {
        Seq::empty()
    } else {
        match arg_bulk(args[i]) {
            None => config_fold(cfg, args, i + 1),
            Some(p) => config_pairs(cfg, lower_seq(p)) + config_fold(cfg, args, i + 1),
        }
    }
}

/// What `CONFIG GET` answers: the table lookups as one flat array, or an
/// error for a missing or unsupported subcommand.
pub open spec fn config_spec(cfg: Config, args: Seq<RespValue>) -> FrameModel {
    if args.len() == 0 {
        FrameModel::Error(ascii_view("Wrong number of arguments for CONFIG"@))
    } else {
        match arg_bulk(args[0]) {
            None => FrameModel::Error(ascii_view("Invalid CONFIG subcommand"@)),
            Some(sub) => {
                if lower_seq(sub) != ascii_view("get"@) {
                    FrameModel::Error(ascii_view("Unknown CONFIG subcommand: "@) + sub
                        + ascii_view(". Supported: GET"@))
                } else if args.len() < 2 {
                    FrameModel::Error(ascii_view("Wrong number of arguments for CONFIG GET"@))
                } else {
                    FrameModel::Array(Some(config_fold(cfg, args, 1)))
                }
            },
        }
    }
}

/// The `HELLO` response payload for a protocol version: a map under
/// RESP3, a flat array of alternating keys and values under RESP2.
pub open spec fn hello_payload(ver: ProtocolVersion) -> FrameModel {
    match ver {
        ProtocolVersion::Resp3 => FrameModel::MapValue(
            seq![
                (FrameModel::BulkString(Some(ascii_view("server"@))),
                    FrameModel::BulkString(Some(ascii_view("coral-redis"@)))),
                (FrameModel::BulkString(Some(ascii_view("version"@))),
                    FrameModel::BulkString(Some(ascii_view("0.1.0"@)))),
                (FrameModel::BulkString(Some(ascii_view("proto"@))), FrameModel::Integer(3)),
                (FrameModel::BulkString(Some(ascii_view("mode"@))),
                    FrameModel::BulkString(Some(ascii_view("standalone"@)))),
                (FrameModel::BulkString(Some(ascii_view("role"@))),
                    FrameModel::BulkString(Some(ascii_view("master"@)))),
            ],
        ),
        ProtocolVersion::Resp2 => FrameModel::Array(Some(
            seq![
                FrameModel::BulkString(Some(ascii_view("server"@))),
                FrameModel::BulkString(Some(ascii_view("coral-redis"@))),
                FrameModel::BulkString(Some(ascii_view("version"@))),
                FrameModel::BulkString(Some(ascii_view("0.1.0"@))),
                FrameModel::BulkString(Some(ascii_view("proto"@))),
                FrameModel::Integer(2),
                FrameModel::BulkString(Some(ascii_view("mode"@))),
                FrameModel::BulkString(Some(ascii_view("standalone"@))),
                FrameModel::BulkString(Some(ascii_view("role"@))),
                FrameModel::BulkString(Some(ascii_view("master"@))),
            ],
        )),
    }
}

/// What `HELLO [2|3]` does to the negotiated version and answers: any
/// numeric version other than 2 or 3 is unsupported, with the number
/// echoed; only a non-numeric argument is a number error. A failed
/// version switch leaves the version unchanged.
pub open spec fn hello_spec(ver: ProtocolVersion, args: Seq<RespValue>)
    -> (ProtocolVersion, FrameModel) {
    if args.len() == 0 {
        (ver, hello_payload(ver))
    } else {
        match arg_bulk(args[0]) {
            None => (ver, FrameModel::Error(ascii_view("ERR protocol version must be a string"@))),
            Some(s) => {
                if is_u64_text(s) {
                    let v = int_text_val(s);
                    if v == 2 {
                        (ProtocolVersion::Resp2, hello_payload(ProtocolVersion::Resp2))
                    } else if v == 3 {
                        (ProtocolVersion::Resp3, hello_payload(ProtocolVersion::Resp3))
                    } else {
                        (ver, FrameModel::Error(
                            ascii_view("ERR unsupported protocol version: "@)
                                + spec_fmt_nat(v as nat),
                        ))
                    }
                } else {
                    (ver, FrameModel::Error(
                        ascii_view("ERR protocol version must be a number"@),
                    ))
                }
            },
        }
    }
}

/// The connection state machine: from store, version, configuration, one
/// decoded frame and the read instant to the next store, the next version
/// and the response frame.
pub open spec fn step_spec(st: Map<Seq<u8>, RecModel>, ver: ProtocolVersion, cfg: Config,
    value: RespValue, now: u64) -> (Map<Seq<u8>, RecModel>, ProtocolVersion, FrameModel) {
    match value {
        RespValue::Array(Some(parts)) => {
            if parts@.len() == 0 {
                (st, ver, FrameModel::Error(ascii_view("Invalid command format"@)))
            } else {
                match arg_bulk(parts@[0]) {
                    None => (st, ver, FrameModel::Error(ascii_view("Invalid command format"@))),
                    Some(cmd) => dispatch_spec(st, ver, cfg, cmd, parts@.skip(1), now),
                }
            }
        },
        _ => (st, ver, FrameModel::Error(ascii_view("Invalid command format"@))),
    }
}

/// Dispatch one command by its case-insensitive name.
pub open spec fn dispatch_spec(st: Map<Seq<u8>, RecModel>, ver: ProtocolVersion, cfg: Config,
    cmd: Seq<u8>, args: Seq<RespValue>, now: u64)
    -> (Map<Seq<u8>, RecModel>, ProtocolVersion, FrameModel) {
    let low = lower_seq(cmd);
    if low == ascii_view("ping"@) {
        (st, ver, ping_spec(args))
    } else if low == ascii_view("set"@) {
        let r = set_spec(st, args, now);
        (r.0, ver, r.1)
    } else if low == ascii_view("get"@) {
        let r = get_spec(st, args, now);
        (r.0, ver, r.1)
    } else if low == ascii_view("del"@) {
        let r = del_spec(st, args);
        (r.0, ver, r.1)
    } else if low == ascii_view("exists"@) {
        let r = exists_spec(st, args, now);
        (r.0, ver, r.1)
    } else if low == ascii_view("dbsize"@) {
        (st, ver, FrameModel::Integer(cap_i64(st.len() as int)))
    } else if low == ascii_view("flushdb"@) {
        (Map::empty(), ver, FrameModel::SimpleString(ascii_view("OK"@)))
    } else if low == ascii_view("command"@) {
        (st, ver, FrameModel::Array(Some(Seq::empty())))
    } else if low == ascii_view("hello"@) {
        let r = hello_spec(ver, args);
        (st, r.0, r.1)
    } else if low == ascii_view("config"@) {
        (st, ver, config_spec(cfg, args))
    } else {
        (st, ver, FrameModel::Error(ascii_view("Unknown command: "@) + cmd))
    }
}

/// Handles one client connection's commands.
///
/// Owns the connection's storage handle, its negotiated protocol version
/// and the shared configuration snapshot.
pub struct Handler {
    storage: MemoryStorage,
    protocol_version: ProtocolVersion,
    config: Config,
}

impl Handler {
    /// The records the handler's store holds.
    pub closed spec fn store(&self) -> Map<Seq<u8>, RecModel> {
        self.storage@
    }

    /// The connection's negotiated protocol version.
    pub closed spec fn proto(&self) -> ProtocolVersion {
        self.protocol_version
    }

    /// The configuration snapshot.
    pub closed spec fn cfg(&self) -> Config {
        self.config
    }

    /// The handler's invariant: its store is well-formed.
    pub closed spec fn inv(&self) -> bool {
        self.storage.wf()
    }

    /// A handler over the given storage, speaking RESP2, with the default
    /// configuration.
    pub fn new(storage: MemoryStorage) -> (r: Self)
        requires
            storage.wf(),
        ensures
            r.inv(),
            r.store() == storage@,
            r.proto() == ProtocolVersion::Resp2,
            r.cfg().server.host@ == "127.0.0.1"@,
            r.cfg().server.port == 6379,
            r.cfg().storage is Memory,
    {
        Self::new_with_config(storage, Config::default())
    }

    /// A handler with storage and configuration, speaking RESP2.
    pub fn new_with_config(storage: MemoryStorage, config: Config) -> (r: Self)
        requires
            storage.wf(),
        ensures
            r.inv(),
            r.store() == storage@,
            r.proto() == ProtocolVersion::Resp2,
            r.cfg() == config,
    {
        Self::new_with_protocol_and_config(storage, ProtocolVersion::default(), config)
    }

    /// A handler with storage and an explicit protocol version.
    pub fn new_with_protocol(storage: MemoryStorage, protocol_version: ProtocolVersion)
        -> (r: Self)
        requires
            storage.wf(),
        ensures
            r.inv(),
            r.store() == storage@,
            r.proto() == protocol_version,
    {
        Self::new_with_protocol_and_config(storage, protocol_version, Config::default())
    }

    /// A handler with every part given.
    pub fn new_with_protocol_and_config(storage: MemoryStorage,
        protocol_version: ProtocolVersion, config: Config) -> (r: Self)
        requires
            storage.wf(),
        ensures
            r.inv(),
            r.store() == storage@,
            r.proto() == protocol_version,
            r.cfg() == config,
    {
        Handler { storage, protocol_version, config }
    }

    /// The current protocol version for this connection.
    pub fn protocol_version(&self) -> (r: ProtocolVersion)
        ensures
            r == self.proto(),
    {
        self.protocol_version
    }

    /// Set the protocol version for this connection.
    pub fn set_protocol_version(&mut self, version: ProtocolVersion)
        ensures
            final(self).proto() == version,
            final(self).store() == old(self).store(),
            final(self).cfg() == old(self).cfg(),
            old(self).inv() ==> final(self).inv(),
    {
        self.protocol_version = version;
    }

    /// Give the storage back, for an embedding that shares it on.
    pub fn into_storage(self) -> (r: MemoryStorage)
        ensures
            r@ == self.store(),
            self.inv() ==> r.wf(),
    {
        self.storage
    }

    /// Answer `PING`: `PONG` bare, the echoed bulk with one argument.
    pub fn handle_ping(&self, args: &[RespValue]) -> (r: RespValue)
        ensures
            r@ == ping_spec(args@),
    {
        if args.len() == 0 {
            proof {
                reveal_strlit("PONG");
            }
            RespValue::SimpleString(ascii_bytes("PONG"))
        } else if args.len() == 1 {
            match &args[0] {
                RespValue::BulkString(Some(message)) => RespValue::BulkString(
                    Some(copy_bytes(message)),
                ),
                _ => {
                    proof {
                        reveal_strlit("Invalid PING argument");
                    }
                    RespValue::Error(ascii_bytes("Invalid PING argument"))
                },
            }
        } else {
            proof {
                reveal_strlit("Wrong number of arguments for PING");
            }
            RespValue::Error(ascii_bytes("Wrong number of arguments for PING"))
        }
    }

    /// Run `SET key value [EX seconds]` against the store as of `now`.
    pub fn handle_set_at(&mut self, args: &[RespValue], now: u64) -> (r: RespValue)
        requires
            old(self).inv(),
            old(self).store().len() < usize::MAX,
        ensures
            final(self).inv(),
            final(self).proto() == old(self).proto(),
            final(self).cfg() == old(self).cfg(),
            final(self).store() == set_spec(old(self).store(), args@, now).0,
            r@ == set_spec(old(self).store(), args@, now).1,
    {
        if args.len() < 2 {
            proof {
                reveal_strlit("Wrong number of arguments for SET");
            }
            return RespValue::Error(ascii_bytes("Wrong number of arguments for SET"));
        }
        let key = match &args[0] {
            RespValue::BulkString(Some(k)) => k,
            _ => {
                proof {
                    reveal_strlit("Invalid key");
                }
                return RespValue::Error(ascii_bytes("Invalid key"));
            },
        };
        let value = match &args[1] {
            RespValue::BulkString(Some(v)) => v,
            _ => {
                proof {
                    reveal_strlit("Invalid value");
                }
                return RespValue::Error(ascii_bytes("Invalid value"));
            },
        };
        if args.len() >= 4 {
            let ex_args: Option<(&Vec<u8>, &Vec<u8>)> = match (&args[2], &args[3]) {
                (RespValue::BulkString(Some(o)), RespValue::BulkString(Some(t))) => Some((o, t)),
                _ => None,
            };
            match ex_args {
                Some((option, ttl_str)) => {
                    let low = lower_bytes(option.as_slice());
                    proof {
                        reveal_strlit("ex");
                    }
                    let ex_lit = ascii_bytes("ex");
                    if bytes_eq(low.as_slice(), ex_lit.as_slice()) {
                        match parse_u64(ttl_str.as_slice()) {
                            Some(ttl_secs) => {
                                let ttl_ms: u64 = if ttl_secs > u64::MAX / 1000 {
                                    u64::MAX
                                } else {
                                    ttl_secs * 1000
                                };
                                proof {
                                    assert(ttl_ms == sat_mul_1000(ttl_secs));
                                }
                                let _res = self.storage.set_with_expiry_at(key, value, now,
                                    ttl_ms);
                                proof {
                                    reveal_strlit("OK");
                                }
                                return RespValue::SimpleString(ascii_bytes("OK"));
                            },
                            None => {
                                proof {
                                    reveal_strlit("Invalid TTL");
                                }
                                return RespValue::Error(ascii_bytes("Invalid TTL"));
                            },
                        }
                    }
                },
                None => {},
            }
        }
        let _res = self.storage.set(key, value);
        proof {
            reveal_strlit("OK");
        }
        RespValue::SimpleString(ascii_bytes("OK"))
    }

    /// Run `SET` at the wall clock's present reading.
    pub fn handle_set(&mut self, args: &[RespValue]) -> (r: RespValue)
        requires
            old(self).inv(),
            old(self).store().len() < usize::MAX,
        ensures
            final(self).inv(),
            final(self).proto() == old(self).proto(),
            final(self).cfg() == old(self).cfg(),
            exists|n: u64|
                final(self).store() == set_spec(old(self).store(), args@, n).0
                    && r@ == set_spec(old(self).store(), args@, n).1,
    {
        let now = now_millis();
        let r = self.handle_set_at(args, now);
        proof {
            assert(final(self).store() == set_spec(old(self).store(), args@, now).0);
        }
        r
    }

    /// Run `GET key` against the store as of `now`.
    pub fn handle_get_at(&mut self, args: &[RespValue], now: u64) -> (r: RespValue)
        requires
            old(self).inv(),
        ensures
            final(self).inv(),
            final(self).proto() == old(self).proto(),
            final(self).cfg() == old(self).cfg(),
            final(self).store() == get_spec(old(self).store(), args@, now).0,
            r@ == get_spec(old(self).store(), args@, now).1,
    {
        if args.len() != 1 {
            proof {
                reveal_strlit("Wrong number of arguments for GET");
            }
            return RespValue::Error(ascii_bytes("Wrong number of arguments for GET"));
        }
        let key = match &args[0] {
            RespValue::BulkString(Some(k)) => k,
            _ => {
                proof {
                    reveal_strlit("Invalid key");
                }
                return RespValue::Error(ascii_bytes("Invalid key"));
            },
        };
        match self.storage.get_at(key, now) {
            Ok(Some(v)) => RespValue::BulkString(Some(v)),
            Ok(None) => RespValue::BulkString(None),
            Err(_) => {
                proof {
                    reveal_strlit("GET failed");
                }
                RespValue::Error(ascii_bytes("GET failed"))
            },
        }
    }

    /// Run `GET` at the wall clock's present reading.
    pub fn handle_get(&mut self, args: &[RespValue]) -> (r: RespValue)
        requires
            old(self).inv(),
        ensures
            final(self).inv(),
            final(self).proto() == old(self).proto(),
            final(self).cfg() == old(self).cfg(),
            exists|n: u64|
                final(self).store() == get_spec(old(self).store(), args@, n).0
                    && r@ == get_spec(old(self).store(), args@, n).1,
    {
        let now = now_millis();
        let r = self.handle_get_at(args, now);
        proof {
            assert(final(self).store() == get_spec(old(self).store(), args@, now).0);
        }
        r
    }

    /// Run `DEL key [key ...]`: remove each named key in order, expired
    /// or not, and answer how many existed.
    pub fn handle_del(&mut self, args: &[RespValue]) -> (r: RespValue)
        requires
            old(self).inv(),
        ensures
            final(self).inv(),
            final(self).proto() == old(self).proto(),
            final(self).cfg() == old(self).cfg(),
            final(self).store() == del_spec(old(self).store(), args@).0,
            r@ == del_spec(old(self).store(), args@).1,
    {
        if args.len() == 0 {
            proof {
                reveal_strlit("Wrong number of arguments for DEL");
            }
            return RespValue::Error(ascii_bytes("Wrong number of arguments for DEL"));
        }
        let ghost st0 = self.store();
        let n = args.len();
        let mut acc: i64 = 0;
        let ghost mut cnt: int = 0;
        let mut i: usize = 0;
        while i < n
            invariant
                i <= n,
                n == args@.len(),
                self.inv(),
                self.proto() == old(self).proto(),
                self.cfg() == old(self).cfg(),
                cnt >= 0,
                acc == cap_i64(cnt),
                del_fold(st0, args@, 0).0 == del_fold(self.store(), args@, i as int).0,
                del_fold(st0, args@, 0).1 == cnt + del_fold(self.store(), args@,
                    i as int).1,
            decreases n - i,
        {
            match &args[i] {
                RespValue::BulkString(Some(key)) => {
                    let res = self.storage.delete(key);
                    match res {
                        Ok(true) => {
                            if acc < i64::MAX {
                                acc = acc + 1;
                            }
                            proof {
                                cnt = cnt + 1;
                            }
                        },
                        Ok(false) => {},
                        Err(_) => {},
                    }
                },
                _ => {},
            }
            i = i + 1;
        }
        RespValue::Integer(acc)
    }

    /// Run `EXISTS key [key ...]` as of `now`: each occurrence is checked
    /// in turn, so a key given twice counts twice.
    pub fn handle_exists_at(&mut self, args: &[RespValue], now: u64) -> (r: RespValue)
        requires
            old(self).inv(),
        ensures
            final(self).inv(),
            final(self).proto() == old(self).proto(),
            final(self).cfg() == old(self).cfg(),
            final(self).store() == exists_spec(old(self).store(), args@, now).0,
            r@ == exists_spec(old(self).store(), args@, now).1,
    {
        if args.len() == 0 {
            proof {
                reveal_strlit("Wrong number of arguments for EXISTS");
            }
            return RespValue::Error(ascii_bytes("Wrong number of arguments for EXISTS"));
        }
        let ghost st0 = self.store();
        let n = args.len();
        let mut acc: i64 = 0;
        let ghost mut cnt: int = 0;
        let mut i: usize = 0;
        while i < n
            invariant
                i <= n,
                n == args@.len(),
                self.inv(),
                self.proto() == old(self).proto(),
                self.cfg() == old(self).cfg(),
                cnt >= 0,
                acc == cap_i64(cnt),
                exists_fold(st0, args@, 0, now).0 == exists_fold(self.store(), args@, i as int,
                    now).0,
                exists_fold(st0, args@, 0, now).1 == cnt + exists_fold(self.store(),
                    args@, i as int, now).1,
            decreases n - i,
        {
            match &args[i] {
                RespValue::BulkString(Some(key)) => {
                    let res = self.storage.exists_at(key, now);
                    match res {
                        Ok(true) => {
                            if acc < i64::MAX {
                                acc = acc + 1;
                            }
                            proof {
                                cnt = cnt + 1;
                            }
                        },
                        Ok(false) => {},
                        Err(_) => {},
                    }
                },
                _ => {},
            }
            i = i + 1;
        }
        RespValue::Integer(acc)
    }

    /// Run `EXISTS` at the wall clock's present reading.
    pub fn handle_exists(&mut self, args: &[RespValue]) -> (r: RespValue)
        requires
            old(self).inv(),
        ensures
            final(self).inv(),
            final(self).proto() == old(self).proto(),
            final(self).cfg() == old(self).cfg(),
            exists|n: u64|
                final(self).store() == exists_spec(old(self).store(), args@, n).0
                    && r@ == exists_spec(old(self).store(), args@, n).1,
    {
        let now = now_millis();
        let r = self.handle_exists_at(args, now);
        proof {
            assert(final(self).store() == exists_spec(old(self).store(), args@, now).0);
        }
        r
    }

    /// Answer `DBSIZE`: the number of entries still in the store.
    pub fn handle_dbsize(&self) -> (r: RespValue)
        requires
            self.inv(),
        ensures
            r@ == FrameModel::Integer(cap_i64(self.store().len() as int)),
    {
        match self.storage.keys_count() {
            Ok(count) => {
                let v: i64 = if count as u64 > i64::MAX as u64 {
                    i64::MAX
                } else {
                    count as i64
                };
                RespValue::Integer(v)
            },
            Err(_) => {
                proof {
                    reveal_strlit("DBSIZE failed");
                }
                RespValue::Error(ascii_bytes("DBSIZE failed"))
            },
        }
    }

    /// Run `FLUSHDB`: remove all records.
    pub fn handle_flushdb(&mut self) -> (r: RespValue)
        requires
            old(self).inv(),
        ensures
            final(self).inv(),
            final(self).proto() == old(self).proto(),
            final(self).cfg() == old(self).cfg(),
            final(self).store() == Map::<Seq<u8>, RecModel>::empty(),
            r@ == FrameModel::SimpleString(ascii_view("OK"@)),
    {
        let _res = self.storage.flush();
        proof {
            reveal_strlit("OK");
        }
        RespValue::SimpleString(ascii_bytes("OK"))
    }

    /// Answer `COMMAND`: an empty array, a stub for client probes.
    pub fn handle_command_info(&self) -> (r: RespValue)
        ensures
            r@ == FrameModel::Array(Some(Seq::<FrameModel>::empty())),
    {
        let items: Vec<RespValue> = Vec::new();
        proof {
            assert(frames_view(items@) =~= Seq::<FrameModel>::empty());
        }
        RespValue::Array(Some(items))
    }

    /// Answer `CONFIG GET parameter [parameter ...]` from the fixed table,
    /// case-insensitively; unknown parameters contribute nothing and `*`
    /// expands to the whole table.
    pub fn handle_config(&self, args: &[RespValue]) -> (r: RespValue)
        ensures
            r@ == config_spec(self.cfg(), args@),
    {
        if args.len() == 0 {
            proof {
                reveal_strlit("Wrong number of arguments for CONFIG");
            }
            return RespValue::Error(ascii_bytes("Wrong number of arguments for CONFIG"));
        }
        let sub = match &args[0] {
            RespValue::BulkString(Some(s)) => s,
            _ => {
                proof {
                    reveal_strlit("Invalid CONFIG subcommand");
                }
                return RespValue::Error(ascii_bytes("Invalid CONFIG subcommand"));
            },
        };
        let low = lower_bytes(sub.as_slice());
        proof {
            reveal_strlit("get");
        }
        let get_lit = ascii_bytes("get");
        if !bytes_eq(low.as_slice(), get_lit.as_slice()) {
            proof {
                reveal_strlit("Unknown CONFIG subcommand: ");
                reveal_strlit(". Supported: GET");
            }
            let mut m = ascii_bytes("Unknown CONFIG subcommand: ");
            append_slice(&mut m, sub.as_slice());
            let tail = ascii_bytes(". Supported: GET");
            append_slice(&mut m, tail.as_slice());
            proof {
                assert(m@ =~= ascii_view("Unknown CONFIG subcommand: "@) + sub@
                    + ascii_view(". Supported: GET"@));
            }
            return RespValue::Error(m);
        }
        if args.len() < 2 {
            proof {
                reveal_strlit("Wrong number of arguments for CONFIG GET");
            }
            return RespValue::Error(ascii_bytes("Wrong number of arguments for CONFIG GET"));
        }
        let mut results: Vec<RespValue> = Vec::new();
        let n = args.len();
        let mut i: usize = 1;
        proof {
            assert(frames_view(results@) =~= Seq::<FrameModel>::empty());
        }
        while i < n
            invariant
                1 <= i <= n,
                n == args@.len(),
                config_fold(self.cfg(), args@, 1) =~= frames_view(results@)
                    + config_fold(self.cfg(), args@, i as int),
            decreases n - i,
        {
            match &args[i] {
                RespValue::BulkString(Some(param)) => {
                    let p = lower_bytes(param.as_slice());
                    let ghost before = frames_view(results@);
                    self.push_config_pairs(&mut results, &p);
                    proof {
                        assert(frames_view(results@)
                            =~= before + config_pairs(self.cfg(), lower_seq(param@)));
                        assert(config_fold(self.cfg(), args@, i as int)
                            == config_pairs(self.cfg(), lower_seq(param@))
                                + config_fold(self.cfg(), args@, i + 1));
                        assert(config_fold(self.cfg(), args@, 1) =~= frames_view(results@)
                            + config_fold(self.cfg(), args@, i + 1));
                    }
                },
                _ => {},
            }
            i = i + 1;
        }
        proof {
            assert(config_fold(self.cfg(), args@, n as int) =~= Seq::<FrameModel>::empty());
            assert(frames_view(results@) =~= config_fold(self.cfg(), args@, 1));
        }
        RespValue::Array(Some(results))
    }

    /// Append the table pairs one lower-cased parameter contributes.
    fn push_config_pairs(&self, results: &mut Vec<RespValue>, p: &Vec<u8>)
        ensures
            frames_view(final(results)@) == frames_view(old(results)@)
                + config_pairs(self.cfg(), p@),
    {
        proof {
            reveal_strlit("port");
            reveal_strlit("bind");
            reveal_strlit("host");
            reveal_strlit("storage");
            reveal_strlit("storage-backend");
            reveal_strlit("maxmemory");
            reveal_strlit("maxmemory-policy");
            reveal_strlit("save");
            reveal_strlit("appendonly");
            reveal_strlit("databases");
            reveal_strlit("*");
        }
        let port_lit = ascii_bytes("port");
        let bind_lit = ascii_bytes("bind");
        let host_lit = ascii_bytes("host");
        let storage_lit = ascii_bytes("storage");
        let backend_lit = ascii_bytes("storage-backend");
        let maxmemory_lit = ascii_bytes("maxmemory");
        let policy_lit = ascii_bytes("maxmemory-policy");
        let save_lit = ascii_bytes("save");
        let appendonly_lit = ascii_bytes("appendonly");
        let databases_lit = ascii_bytes("databases");
        let star_lit = ascii_bytes("*");
        if bytes_eq(p.as_slice(), port_lit.as_slice()) {
            self.push_port(results);
        } else if bytes_eq(p.as_slice(), bind_lit.as_slice())
            || bytes_eq(p.as_slice(), host_lit.as_slice()) {
            self.push_bind(results);
        } else if bytes_eq(p.as_slice(), storage_lit.as_slice())
            || bytes_eq(p.as_slice(), backend_lit.as_slice()) {
            self.push_backend(results);
        } else if bytes_eq(p.as_slice(), maxmemory_lit.as_slice()) {
            self.push_maxmemory(results);
        } else if bytes_eq(p.as_slice(), policy_lit.as_slice()) {
            self.push_policy(results);
        } else if bytes_eq(p.as_slice(), save_lit.as_slice()) {
            self.push_save(results);
        } else if bytes_eq(p.as_slice(), appendonly_lit.as_slice()) {
            self.push_appendonly(results);
        } else if bytes_eq(p.as_slice(), databases_lit.as_slice()) {
            self.push_databases(results);
        } else if bytes_eq(p.as_slice(), star_lit.as_slice()) {
            let ghost g0 = frames_view(results@);
            self.push_port(results);
            let ghost g1 = frames_view(results@);
            self.push_bind(results);
            let ghost g2 = frames_view(results@);
            self.push_backend(results);
            let ghost g3 = frames_view(results@);
            self.push_maxmemory(results);
            let ghost g4 = frames_view(results@);
            self.push_policy(results);
            let ghost g5 = frames_view(results@);
            self.push_save(results);
            let ghost g6 = frames_view(results@);
            self.push_appendonly(results);
            let ghost g7 = frames_view(results@);
            self.push_databases(results);
            proof {
                assert(frames_view(results@) =~= g0 + config_pairs(self.cfg(), p@));
            }
        } else {
            proof {
                assert(config_pairs(self.cfg(), p@) =~= Seq::<FrameModel>::empty());
                assert(frames_view(results@) =~= frames_view(results@)
                    + config_pairs(self.cfg(), p@));
            }
        }
    }

    /// Append the `port` pair.
    fn push_port(&self, results: &mut Vec<RespValue>)
        ensures
            frames_view(final(results)@) == frames_view(old(results)@)
                + bulk2(ascii_view("port"@), spec_fmt_nat(self.cfg().server.port as nat)),
    {
        proof {
            reveal_strlit("port");
        }
        push_pair(results, ascii_bytes("port"), fmt_u64(self.config.server.port as u64));
    }

    /// Append the `bind` pair: the configured host.
    fn push_bind(&self, results: &mut Vec<RespValue>)
        ensures
            frames_view(final(results)@) == frames_view(old(results)@)
                + bulk2(ascii_view("bind"@), vstd::utf8::encode_utf8(self.cfg().server.host@)),
    {
        proof {
            reveal_strlit("bind");
        }
        push_pair(results, ascii_bytes("bind"), self.config.server.host.as_str().as_bytes_vec());
    }

    /// Append the `storage-backend` pair: the backend identifier.
    fn push_backend(&self, results: &mut Vec<RespValue>)
        ensures
            frames_view(final(results)@) == frames_view(old(results)@)
                + bulk2(ascii_view("storage-backend"@), backend_name(self.cfg().storage)),
    {
        proof {
            reveal_strlit("storage-backend");
            reveal_strlit("memory");
            reveal_strlit("lmdb");
            reveal_strlit("s3");
        }
        let name = match &self.config.storage {
            crate::config::StorageConfig::Memory => ascii_bytes("memory"),
            crate::config::StorageConfig::Lmdb { .. } => ascii_bytes("lmdb"),
            crate::config::StorageConfig::S3 { .. } => ascii_bytes("s3"),
        };
        push_pair(results, ascii_bytes("storage-backend"), name);
    }

    /// Append the `maxmemory` pair: `0`, unlimited.
    fn push_maxmemory(&self, results: &mut Vec<RespValue>)
        ensures
            frames_view(final(results)@) == frames_view(old(results)@)
                + bulk2(ascii_view("maxmemory"@), ascii_view("0"@)),
    {
        proof {
            reveal_strlit("maxmemory");
            reveal_strlit("0");
        }
        push_pair(results, ascii_bytes("maxmemory"), ascii_bytes("0"));
    }

    /// Append the `maxmemory-policy` pair: `noeviction`.
    fn push_policy(&self, results: &mut Vec<RespValue>)
        ensures
            frames_view(final(results)@) == frames_view(old(results)@)
                + bulk2(ascii_view("maxmemory-policy"@), ascii_view("noeviction"@)),
    {
        proof {
            reveal_strlit("maxmemory-policy");
            reveal_strlit("noeviction");
        }
        push_pair(results, ascii_bytes("maxmemory-policy"), ascii_bytes("noeviction"));
    }

    /// Append the `save` pair: empty, no snapshots.
    fn push_save(&self, results: &mut Vec<RespValue>)
        ensures
            frames_view(final(results)@) == frames_view(old(results)@)
                + bulk2(ascii_view("save"@), ascii_view(""@)),
    {
        proof {
            reveal_strlit("save");
            reveal_strlit("");
        }
        push_pair(results, ascii_bytes("save"), ascii_bytes(""));
    }

    /// Append the `appendonly` pair: `no`.
    fn push_appendonly(&self, results: &mut Vec<RespValue>)
        ensures
            frames_view(final(results)@) == frames_view(old(results)@)
                + bulk2(ascii_view("appendonly"@), ascii_view("no"@)),
    {
        proof {
            reveal_strlit("appendonly");
            reveal_strlit("no");
        }
        push_pair(results, ascii_bytes("appendonly"), ascii_bytes("no"));
    }

    /// Append the `databases` pair: `1`.
    fn push_databases(&self, results: &mut Vec<RespValue>)
        ensures
            frames_view(final(results)@) == frames_view(old(results)@)
                + bulk2(ascii_view("databases"@), ascii_view("1"@)),
    {
        proof {
            reveal_strlit("databases");
            reveal_strlit("1");
        }
        push_pair(results, ascii_bytes("databases"), ascii_bytes("1"));
    }

    /// Run `HELLO [2|3]`: report or switch the protocol version. A failed
    /// version parse leaves the connection's version unchanged.
    pub fn handle_hello(&mut self, args: &[RespValue]) -> (r: RespValue)
        ensures
            final(self).store() == old(self).store(),
            final(self).cfg() == old(self).cfg(),
            old(self).inv() ==> final(self).inv(),
            final(self).proto() == hello_spec(old(self).proto(), args@).0,
            r@ == hello_spec(old(self).proto(), args@).1,
    {
        if args.len() == 0 {
            return self.hello_payload_frame();
        }
        let ver_str = match &args[0] {
            RespValue::BulkString(Some(s)) => s,
            _ => {
                proof {
                    reveal_strlit("ERR protocol version must be a string");
                }
                return RespValue::Error(ascii_bytes("ERR protocol version must be a string"));
            },
        };
        match parse_u64(ver_str.as_slice()) {
            Some(v) => {
                if v == 2 {
                    self.protocol_version = ProtocolVersion::Resp2;
                    self.hello_payload_frame()
                } else if v == 3 {
                    self.protocol_version = ProtocolVersion::Resp3;
                    self.hello_payload_frame()
                } else {
                    proof {
                        reveal_strlit("ERR unsupported protocol version: ");
                    }
                    let mut m = ascii_bytes("ERR unsupported protocol version: ");
                    let digits = fmt_u64(v);
                    append_slice(&mut m, digits.as_slice());
                    proof {
                        assert(m@ =~= ascii_view("ERR unsupported protocol version: "@)
                            + spec_fmt_nat(v as nat));
                    }
                    RespValue::Error(m)
                }
            },
            None => {
                proof {
                    reveal_strlit("ERR protocol version must be a number");
                }
                RespValue::Error(ascii_bytes("ERR protocol version must be a number"))
            },
        }
    }

    /// Build the `HELLO` payload for the current protocol version.
    fn hello_payload_frame(&self) -> (r: RespValue)
        ensures
            r@ == hello_payload(self.proto()),
    {
        hello_payload_exec(self.protocol_version)
    }
}

/// Build the `HELLO` payload for a protocol version.
fn hello_payload_exec(ver: ProtocolVersion) -> (r: RespValue)
    ensures
        r@ == hello_payload(ver),
{
    {
        proof {
            reveal_strlit("server");
            reveal_strlit("coral-redis");
            reveal_strlit("version");
            reveal_strlit("0.1.0");
            reveal_strlit("proto");
            reveal_strlit("mode");
            reveal_strlit("standalone");
            reveal_strlit("role");
            reveal_strlit("master");
        }
        match ver {
            ProtocolVersion::Resp3 => {
                let mut pairs: Vec<(RespValue, RespValue)> = Vec::new();
                pairs.push((
                    RespValue::BulkString(Some(ascii_bytes("server"))),
                    RespValue::BulkString(Some(ascii_bytes("coral-redis"))),
                ));
                pairs.push((
                    RespValue::BulkString(Some(ascii_bytes("version"))),
                    RespValue::BulkString(Some(ascii_bytes("0.1.0"))),
                ));
                pairs.push((
                    RespValue::BulkString(Some(ascii_bytes("proto"))),
                    RespValue::Integer(3),
                ));
                pairs.push((
                    RespValue::BulkString(Some(ascii_bytes("mode"))),
                    RespValue::BulkString(Some(ascii_bytes("standalone"))),
                ));
                pairs.push((
                    RespValue::BulkString(Some(ascii_bytes("role"))),
                    RespValue::BulkString(Some(ascii_bytes("master"))),
                ));
                proof {
                    crate::frame::lemma_pairs_view(pairs@);
                    assert(crate::frame::pairs_view(pairs@)
                        =~= hello_payload(ProtocolVersion::Resp3)->MapValue_0);
                }
                RespValue::MapValue(pairs)
            },
            ProtocolVersion::Resp2 => {
                let mut items: Vec<RespValue> = Vec::new();
                items.push(RespValue::BulkString(Some(ascii_bytes("server"))));
                items.push(RespValue::BulkString(Some(ascii_bytes("coral-redis"))));
                items.push(RespValue::BulkString(Some(ascii_bytes("version"))));
                items.push(RespValue::BulkString(Some(ascii_bytes("0.1.0"))));
                items.push(RespValue::BulkString(Some(ascii_bytes("proto"))));
                items.push(RespValue::Integer(2));
                items.push(RespValue::BulkString(Some(ascii_bytes("mode"))));
                items.push(RespValue::BulkString(Some(ascii_bytes("standalone"))));
                items.push(RespValue::BulkString(Some(ascii_bytes("role"))));
                items.push(RespValue::BulkString(Some(ascii_bytes("master"))));
                proof {
                    lemma_frames_view(items@);
                    assert(frames_view(items@)
                        =~= hello_payload(ProtocolVersion::Resp2)->Array_0->Some_0);
                }
                RespValue::Array(Some(items))
            },
        }
    }
}

impl Handler {
    /// Dispatch one decoded frame as of instant `now`: exactly the
    /// connection state machine `step_spec`.
    pub fn handle_command_at(&mut self, value: RespValue, now: u64) -> (r: RespValue)
        requires
            old(self).inv(),
            old(self).store().len() < usize::MAX,
        ensures
            final(self).inv(),
            final(self).cfg() == old(self).cfg(),
            final(self).store() == step_spec(old(self).store(), old(self).proto(),
                old(self).cfg(), value, now).0,
            final(self).proto() == step_spec(old(self).store(), old(self).proto(),
                old(self).cfg(), value, now).1,
            r@ == step_spec(old(self).store(), old(self).proto(), old(self).cfg(), value,
                now).2,
    {
        let parts = match value {
            RespValue::Array(Some(parts)) => parts,
            _ => {
                proof {
                    reveal_strlit("Invalid command format");
                }
                return RespValue::Error(ascii_bytes("Invalid command format"));
            },
        };
        if parts.len() == 0 {
            proof {
                reveal_strlit("Invalid command format");
            }
            return RespValue::Error(ascii_bytes("Invalid command format"));
        }
        let cmd = match &parts[0] {
            RespValue::BulkString(Some(c)) => c,
            _ => {
                proof {
                    reveal_strlit("Invalid command format");
                }
                return RespValue::Error(ascii_bytes("Invalid command format"));
            },
        };
        let ps = parts.as_slice();
        let args = &ps[1..ps.len()];
        proof {
            assert(args@ =~= parts@.skip(1));
        }
        let low = lower_bytes(cmd.as_slice());
        proof {
            reveal_strlit("ping");
            reveal_strlit("set");
            reveal_strlit("get");
            reveal_strlit("del");
            reveal_strlit("exists");
            reveal_strlit("dbsize");
            reveal_strlit("flushdb");
            reveal_strlit("command");
            reveal_strlit("hello");
            reveal_strlit("config");
        }
        if bytes_eq(low.as_slice(), ascii_bytes("ping").as_slice()) {
            self.handle_ping(args)
        } else if bytes_eq(low.as_slice(), ascii_bytes("set").as_slice()) {
            self.handle_set_at(args, now)
        } else if bytes_eq(low.as_slice(), ascii_bytes("get").as_slice()) {
            self.handle_get_at(args, now)
        } else if bytes_eq(low.as_slice(), ascii_bytes("del").as_slice()) {
            self.handle_del(args)
        } else if bytes_eq(low.as_slice(), ascii_bytes("exists").as_slice()) {
            self.handle_exists_at(args, now)
        } else if bytes_eq(low.as_slice(), ascii_bytes("dbsize").as_slice()) {
            self.handle_dbsize()
        } else if bytes_eq(low.as_slice(), ascii_bytes("flushdb").as_slice()) {
            self.handle_flushdb()
        } else if bytes_eq(low.as_slice(), ascii_bytes("command").as_slice()) {
            self.handle_command_info()
        } else if bytes_eq(low.as_slice(), ascii_bytes("hello").as_slice()) {
            self.handle_hello(args)
        } else if bytes_eq(low.as_slice(), ascii_bytes("config").as_slice()) {
            self.handle_config(args)
        } else {
            proof {
                reveal_strlit("Unknown command: ");
            }
            let mut m = ascii_bytes("Unknown command: ");
            append_slice(&mut m, cmd.as_slice());
            proof {
                assert(m@ =~= ascii_view("Unknown command: "@) + cmd@);
            }
            RespValue::Error(m)
        }
    }

    /// Dispatch one decoded frame at the wall clock's present reading.
    pub fn handle_command(&mut self, value: RespValue) -> (r: RespValue)
        requires
            old(self).inv(),
            old(self).store().len() < usize::MAX,
        ensures
            final(self).inv(),
            final(self).cfg() == old(self).cfg(),
            exists|n: u64|
                final(self).store() == step_spec(old(self).store(), old(self).proto(),
                    old(self).cfg(), value, n).0
                    && final(self).proto() == step_spec(old(self).store(), old(self).proto(),
                        old(self).cfg(), value, n).1
                    && r@ == step_spec(old(self).store(), old(self).proto(), old(self).cfg(),
                        value, n).2,
    {
        let now = now_millis();
        let ghost v = value;
        let r = self.handle_command_at(value, now);
        proof {
            assert(final(self).store() == step_spec(old(self).store(), old(self).proto(),
                old(self).cfg(), v, now).0);
        }
        r
    }

    /// Normalize a command name: the lower-cased form for a known command,
    /// the name unchanged otherwise.
    pub fn normalize_command(cmd: &Vec<u8>) -> (r: Vec<u8>)
        ensures
            known_command(lower_seq(cmd@)) ==> r@ == lower_seq(cmd@),
            !known_command(lower_seq(cmd@)) ==> r@ == cmd@,
    {
        let low = lower_bytes(cmd.as_slice());
        proof {
            reveal_strlit("ping");
            reveal_strlit("set");
            reveal_strlit("get");
            reveal_strlit("del");
            reveal_strlit("exists");
            reveal_strlit("dbsize");
            reveal_strlit("flushdb");
            reveal_strlit("command");
            reveal_strlit("hello");
            reveal_strlit("config");
        }
        if bytes_eq(low.as_slice(), ascii_bytes("ping").as_slice())
            || bytes_eq(low.as_slice(), ascii_bytes("set").as_slice())
            || bytes_eq(low.as_slice(), ascii_bytes("get").as_slice())
            || bytes_eq(low.as_slice(), ascii_bytes("del").as_slice())
            || bytes_eq(low.as_slice(), ascii_bytes("exists").as_slice())
            || bytes_eq(low.as_slice(), ascii_bytes("dbsize").as_slice())
            || bytes_eq(low.as_slice(), ascii_bytes("flushdb").as_slice())
            || bytes_eq(low.as_slice(), ascii_bytes("command").as_slice())
            || bytes_eq(low.as_slice(), ascii_bytes("hello").as_slice())
            || bytes_eq(low.as_slice(), ascii_bytes("config").as_slice()) {
            low
        } else {
            copy_bytes(cmd)
        }
    }
}

/// The closed command table, by lower-cased name.
pub open spec fn known_command(low: Seq<u8>) -> bool {
    ||| low == ascii_view("ping"@)
    ||| low == ascii_view("set"@)
    ||| low == ascii_view("get"@)
    ||| low == ascii_view("del"@)
    ||| low == ascii_view("exists"@)
    ||| low == ascii_view("dbsize"@)
    ||| low == ascii_view("flushdb"@)
    ||| low == ascii_view("command"@)
    ||| low == ascii_view("hello"@)
    ||| low == ascii_view("config"@)
}

/// What one decoded frame asks of the storage backend, for an embedding
/// that drives a backend the library cannot call itself. Commands that
/// need no storage come back as a finished response; the others name the
/// one storage operation and its validated arguments, and the reply
/// builders below shape the backend's answer.
pub enum CommandPlan {
    /// Answer with this frame; the store is untouched.
    Respond(RespValue),
    /// Switch the connection to this protocol version, then answer.
    SetVersion(ProtocolVersion, RespValue),
    /// Replace the record under `key`, clearing any expiry.
    DoSet { key: Vec<u8>, value: Vec<u8> },
    /// Replace the record under `key` with an expiry of `ttl_secs`.
    DoSetWithExpiry { key: Vec<u8>, value: Vec<u8>, ttl_secs: u64 },
    /// Read the record under `key`.
    DoGet { key: Vec<u8> },
    /// Delete each key in order; the reply counts those that existed.
    DoDelete { keys: Vec<Vec<u8>> },
    /// Check each key in order; the reply counts the occurrences present.
    DoExists { keys: Vec<Vec<u8>> },
    /// Count the non-expired records.
    DoDbSize,
    /// Remove all records.
    DoFlush,
}

/// The bulk-string arguments among `args`, in order: what `DEL` and
/// `EXISTS` act on, non-bulk arguments skipped.
pub open spec fn bulk_args(args: Seq<RespValue>, i: int) -> Seq<Seq<u8>>
    decreases args.len() - i,
{
    if i < 0 || i >= args.len() {
        Seq::empty()
    } else {
        match arg_bulk(args[i]) {
            None => bulk_args(args, i + 1),
            Some(k) => seq![k] + bulk_args(args, i + 1),
        }
    }
}

impl Handler {
    /// Decide what one decoded frame asks for, without touching any
    /// store: the connection state machine's decision half, for an
    /// embedding whose backend the library cannot call.
    pub fn plan(&self, value: &RespValue) -> (r: CommandPlan)
        ensures
            plan_ok(self.proto(), self.cfg(), *value, r),
    {
        let parts = match value {
            RespValue::Array(Some(parts)) => parts,
            _ => {
                proof {
                    reveal_strlit("Invalid command format");
                }
                return CommandPlan::Respond(RespValue::Error(
                    ascii_bytes("Invalid command format"),
                ));
            },
        };
        if parts.len() == 0 {
            proof {
                reveal_strlit("Invalid command format");
            }
            return CommandPlan::Respond(RespValue::Error(ascii_bytes("Invalid command format")));
        }
        let cmd = match &parts[0] {
            RespValue::BulkString(Some(c)) => c,
            _ => {
                proof {
                    reveal_strlit("Invalid command format");
                }
                return CommandPlan::Respond(RespValue::Error(
                    ascii_bytes("Invalid command format"),
                ));
            },
        };
        let ps = parts.as_slice();
        let args = &ps[1..ps.len()];
        proof {
            assert(args@ =~= parts@.skip(1));
        }
        let low = lower_bytes(cmd.as_slice());
        proof {
            reveal_strlit("ping");
            reveal_strlit("set");
            reveal_strlit("get");
            reveal_strlit("del");
            reveal_strlit("exists");
            reveal_strlit("dbsize");
            reveal_strlit("flushdb");
            reveal_strlit("command");
            reveal_strlit("hello");
            reveal_strlit("config");
        }
        if bytes_eq(low.as_slice(), ascii_bytes("ping").as_slice()) {
            CommandPlan::Respond(self.handle_ping(args))
        } else if bytes_eq(low.as_slice(), ascii_bytes("set").as_slice()) {
            self.plan_set(args)
        } else if bytes_eq(low.as_slice(), ascii_bytes("get").as_slice()) {
            if args.len() != 1 {
                proof {
                    reveal_strlit("Wrong number of arguments for GET");
                }
                return CommandPlan::Respond(RespValue::Error(
                    ascii_bytes("Wrong number of arguments for GET"),
                ));
            }
            match &args[0] {
                RespValue::BulkString(Some(k)) => CommandPlan::DoGet { key: copy_bytes(k) },
                _ => {
                    proof {
                        reveal_strlit("Invalid key");
                    }
                    CommandPlan::Respond(RespValue::Error(ascii_bytes("Invalid key")))
                },
            }
        } else if bytes_eq(low.as_slice(), ascii_bytes("del").as_slice()) {
            if args.len() == 0 {
                proof {
                    reveal_strlit("Wrong number of arguments for DEL");
                }
                return CommandPlan::Respond(RespValue::Error(
                    ascii_bytes("Wrong number of arguments for DEL"),
                ));
            }
            CommandPlan::DoDelete { keys: collect_bulk_args(args) }
        } else if bytes_eq(low.as_slice(), ascii_bytes("exists").as_slice()) {
            if args.len() == 0 {
                proof {
                    reveal_strlit("Wrong number of arguments for EXISTS");
                }
                return CommandPlan::Respond(RespValue::Error(
                    ascii_bytes("Wrong number of arguments for EXISTS"),
                ));
            }
            CommandPlan::DoExists { keys: collect_bulk_args(args) }
        } else if bytes_eq(low.as_slice(), ascii_bytes("dbsize").as_slice()) {
            CommandPlan::DoDbSize
        } else if bytes_eq(low.as_slice(), ascii_bytes("flushdb").as_slice()) {
            CommandPlan::DoFlush
        } else if bytes_eq(low.as_slice(), ascii_bytes("command").as_slice()) {
            CommandPlan::Respond(self.handle_command_info())
        } else if bytes_eq(low.as_slice(), ascii_bytes("hello").as_slice()) {
            self.plan_hello(args)
        } else if bytes_eq(low.as_slice(), ascii_bytes("config").as_slice()) {
            CommandPlan::Respond(self.handle_config(args))
        } else {
            proof {
                reveal_strlit("Unknown command: ");
            }
            let mut m = ascii_bytes("Unknown command: ");
            append_slice(&mut m, cmd.as_slice());
            proof {
                assert(m@ =~= ascii_view("Unknown command: "@) + cmd@);
            }
            CommandPlan::Respond(RespValue::Error(m))
        }
    }

    /// The `SET` half of `plan`: validate arguments and the `EX` option.
    fn plan_set(&self, args: &[RespValue]) -> (r: CommandPlan)
        ensures
            set_plan_ok(args@, r),
    {
        if args.len() < 2 {
            proof {
                reveal_strlit("Wrong number of arguments for SET");
            }
            return CommandPlan::Respond(RespValue::Error(
                ascii_bytes("Wrong number of arguments for SET"),
            ));
        }
        let key = match &args[0] {
            RespValue::BulkString(Some(k)) => k,
            _ => {
                proof {
                    reveal_strlit("Invalid key");
                }
                return CommandPlan::Respond(RespValue::Error(ascii_bytes("Invalid key")));
            },
        };
        let value = match &args[1] {
            RespValue::BulkString(Some(v)) => v,
            _ => {
                proof {
                    reveal_strlit("Invalid value");
                }
                return CommandPlan::Respond(RespValue::Error(ascii_bytes("Invalid value")));
            },
        };
        if args.len() >= 4 {
            let ex_args: Option<(&Vec<u8>, &Vec<u8>)> = match (&args[2], &args[3]) {
                (RespValue::BulkString(Some(o)), RespValue::BulkString(Some(t))) => Some((o, t)),
                _ => None,
            };
            match ex_args {
                Some((option, ttl_str)) => {
                    let low = lower_bytes(option.as_slice());
                    proof {
                        reveal_strlit("ex");
                    }
                    let ex_lit = ascii_bytes("ex");
                    if bytes_eq(low.as_slice(), ex_lit.as_slice()) {
                        match parse_u64(ttl_str.as_slice()) {
                            Some(ttl_secs) => {
                                return CommandPlan::DoSetWithExpiry {
                                    key: copy_bytes(key),
                                    value: copy_bytes(value),
                                    ttl_secs,
                                };
                            },
                            None => {
                                proof {
                                    reveal_strlit("Invalid TTL");
                                }
                                return CommandPlan::Respond(RespValue::Error(
                                    ascii_bytes("Invalid TTL"),
                                ));
                            },
                        }
                    }
                },
                None => {},
            }
        }
        CommandPlan::DoSet { key: copy_bytes(key), value: copy_bytes(value) }
    }

    /// The `HELLO` half of `plan`: the version switch without any store.
    fn plan_hello(&self, args: &[RespValue]) -> (r: CommandPlan)
        ensures
            r matches CommandPlan::SetVersion(v, resp)
                && v == hello_spec(self.proto(), args@).0
                && resp@ == hello_spec(self.proto(), args@).1,
    {
        if args.len() == 0 {
            return CommandPlan::SetVersion(self.protocol_version, self.hello_payload_frame());
        }
        let ver_str = match &args[0] {
            RespValue::BulkString(Some(s)) => s,
            _ => {
                proof {
                    reveal_strlit("ERR protocol version must be a string");
                }
                return CommandPlan::SetVersion(self.protocol_version, RespValue::Error(
                    ascii_bytes("ERR protocol version must be a string"),
                ));
            },
        };
        match parse_u64(ver_str.as_slice()) {
            Some(v) => {
                if v == 2 {
                    CommandPlan::SetVersion(ProtocolVersion::Resp2,
                        hello_payload_exec(ProtocolVersion::Resp2))
                } else if v == 3 {
                    CommandPlan::SetVersion(ProtocolVersion::Resp3,
                        hello_payload_exec(ProtocolVersion::Resp3))
                } else {
                    proof {
                        reveal_strlit("ERR unsupported protocol version: ");
                    }
                    let mut m = ascii_bytes("ERR unsupported protocol version: ");
                    let digits = fmt_u64(v);
                    append_slice(&mut m, digits.as_slice());
                    proof {
                        assert(m@ =~= ascii_view("ERR unsupported protocol version: "@)
                            + spec_fmt_nat(v as nat));
                    }
                    CommandPlan::SetVersion(self.protocol_version, RespValue::Error(m))
                }
            },
            None => {
                proof {
                    reveal_strlit("ERR protocol version must be a number");
                }
                CommandPlan::SetVersion(self.protocol_version, RespValue::Error(
                    ascii_bytes("ERR protocol version must be a number"),
                ))
            },
        }
    }
}

/// What `plan` promises of a `SET` frame's arguments.
pub open spec fn set_plan_ok(args: Seq<RespValue>, r: CommandPlan) -> bool {
    if args.len() < 2 {
        r matches CommandPlan::Respond(e) && e@ == FrameModel::Error(
            ascii_view("Wrong number of arguments for SET"@),
        )
    } else if arg_bulk(args[0]) is None {
        r matches CommandPlan::Respond(e) && e@ == FrameModel::Error(ascii_view("Invalid key"@))
    } else if arg_bulk(args[1]) is None {
        r matches CommandPlan::Respond(e) && e@ == FrameModel::Error(ascii_view("Invalid value"@))
    } else if args.len() >= 4 && arg_bulk(args[2]) is Some && arg_bulk(args[3]) is Some
        && lower_seq(arg_bulk(args[2])->Some_0) == ascii_view("ex"@) {
        if is_u64_text(arg_bulk(args[3])->Some_0) {
            r matches CommandPlan::DoSetWithExpiry { key, value, ttl_secs }
                && key@ == arg_bulk(args[0])->Some_0
                && value@ == arg_bulk(args[1])->Some_0
                && ttl_secs as int == int_text_val(arg_bulk(args[3])->Some_0)
        } else {
            r matches CommandPlan::Respond(e) && e@ == FrameModel::Error(
                ascii_view("Invalid TTL"@),
            )
        }
    } else {
        r matches CommandPlan::DoSet { key, value } && key@ == arg_bulk(args[0])->Some_0
            && value@ == arg_bulk(args[1])->Some_0
    }
}

/// What `plan` promises of one decoded frame: every storage plan carries
/// exactly the validated arguments of its command, and a finished
/// response is the one the connection state machine gives for a command
/// that needs no storage.
pub open spec fn plan_ok(ver: ProtocolVersion, cfg: Config, value: RespValue, r: CommandPlan)
    -> bool {
    match value {
        RespValue::Array(Some(parts)) => {
            if parts@.len() == 0 {
                r matches CommandPlan::Respond(p) && p@ == FrameModel::Error(
                    ascii_view("Invalid command format"@),
                )
            } else {
                match arg_bulk(parts@[0]) {
                    None => r matches CommandPlan::Respond(p) && p@ == FrameModel::Error(
                        ascii_view("Invalid command format"@),
                    ),
                    Some(cmd) => {
                        let low = lower_seq(cmd);
                        let args = parts@.skip(1);
                        if low == ascii_view("ping"@) {
                            r matches CommandPlan::Respond(p) && p@ == ping_spec(args)
                        } else if low == ascii_view("set"@) {
                            set_plan_ok(args, r)
                        } else if low == ascii_view("get"@) {
                            if args.len() != 1 {
                                r matches CommandPlan::Respond(p) && p@ == FrameModel::Error(
                                    ascii_view("Wrong number of arguments for GET"@),
                                )
                            } else if arg_bulk(args[0]) is None {
                                r matches CommandPlan::Respond(p) && p@ == FrameModel::Error(
                                    ascii_view("Invalid key"@),
                                )
                            } else {
                                r matches CommandPlan::DoGet { key }
                                    && key@ == arg_bulk(args[0])->Some_0
                            }
                        } else if low == ascii_view("del"@) {
                            if args.len() == 0 {
                                r matches CommandPlan::Respond(p) && p@ == FrameModel::Error(
                                    ascii_view("Wrong number of arguments for DEL"@),
                                )
                            } else {
                                r matches CommandPlan::DoDelete { keys }
                                    && keys.deep_view() == bulk_args(args, 0)
                            }
                        } else if low == ascii_view("exists"@) {
                            if args.len() == 0 {
                                r matches CommandPlan::Respond(p) && p@ == FrameModel::Error(
                                    ascii_view("Wrong number of arguments for EXISTS"@),
                                )
                            } else {
                                r matches CommandPlan::DoExists { keys }
                                    && keys.deep_view() == bulk_args(args, 0)
                            }
                        } else if low == ascii_view("dbsize"@) {
                            r is DoDbSize
                        } else if low == ascii_view("flushdb"@) {
                            r is DoFlush
                        } else if low == ascii_view("command"@) {
                            r matches CommandPlan::Respond(p)
                                && p@ == FrameModel::Array(Some(Seq::<FrameModel>::empty()))
                        } else if low == ascii_view("hello"@) {
                            r matches CommandPlan::SetVersion(v, resp)
                                && v == hello_spec(ver, args).0
                                && resp@ == hello_spec(ver, args).1
                        } else if low == ascii_view("config"@) {
                            r matches CommandPlan::Respond(p) && p@ == config_spec(cfg, args)
                        } else {
                            r matches CommandPlan::Respond(p) && p@ == FrameModel::Error(
                                ascii_view("Unknown command: "@) + cmd,
                            )
                        }
                    },
                }
            }
        },
        _ => r matches CommandPlan::Respond(p) && p@ == FrameModel::Error(
            ascii_view("Invalid command format"@),
        ),
    }
}

/// Collect the bulk-string arguments, in order.
fn collect_bulk_args(args: &[RespValue]) -> (r: Vec<Vec<u8>>)
    ensures
        r.deep_view() == bulk_args(args@, 0),
{
    let n = args.len();
    let mut out: Vec<Vec<u8>> = Vec::new();
    let mut i: usize = 0;
    proof {
        assert(out.deep_view() =~= Seq::<Seq<u8>>::empty());
    }
    while i < n
        invariant
            i <= n,
            n == args@.len(),
            bulk_args(args@, 0) =~= out.deep_view() + bulk_args(args@, i as int),
        decreases n - i,
    {
        match &args[i] {
            RespValue::BulkString(Some(k)) => {
                let ghost before = out.deep_view();
                let kk = copy_bytes(k);
                let ghost kv = kk@;
                out.push(kk);
                proof {
                    assert(out.deep_view() =~~= before.push(kv));
                    assert(out.deep_view() =~= before + seq![arg_bulk(args@[i as int])->Some_0]);
                    assert(bulk_args(args@, i as int) == seq![arg_bulk(args@[i as int])->Some_0]
                        + bulk_args(args@, i + 1));
                    assert(bulk_args(args@, 0) =~= out.deep_view() + bulk_args(args@, i + 1));
                }
            },
            _ => {},
        }
        i = i + 1;
    }
    proof {
        assert(bulk_args(args@, n as int) =~= Seq::<Seq<u8>>::empty());
        assert(out.deep_view() =~= bulk_args(args@, 0));
    }
    out
}

/// The reply to a read: the payload as a bulk, or the null bulk.
pub fn get_reply(result: Option<Vec<u8>>) -> (r: RespValue)
    ensures
        r@ == (match result {
            Some(d) => FrameModel::BulkString(Some(d@)),
            None => FrameModel::BulkString(None),
        }),
{
    match result {
        Some(d) => RespValue::BulkString(Some(d)),
        None => RespValue::BulkString(None),
    }
}

/// The reply to a write or a flush: `OK`.
pub fn ok_reply() -> (r: RespValue)
    ensures
        r@ == FrameModel::SimpleString(ascii_view("OK"@)),
{
    proof {
        reveal_strlit("OK");
    }
    RespValue::SimpleString(ascii_bytes("OK"))
}

/// How many of the per-key answers are true.
pub open spec fn count_true(flags: Seq<bool>, i: int) -> int
    decreases flags.len() - i,
{
    if i < 0 || i >= flags.len() {
        0
    } else {
        (if flags[i] {
            1int
        } else {
            0int
        }) + count_true(flags, i + 1)
    }
}

/// The reply to a batch of per-key answers: how many were true, as a
/// protocol integer.
pub fn count_reply(flags: &Vec<bool>) -> (r: RespValue)
    ensures
        r@ == FrameModel::Integer(cap_i64(count_true(flags@, 0))),
{
    let n = flags.len();
    let mut acc: i64 = 0;
    let ghost mut cnt: int = 0;
    let mut i: usize = 0;
    while i < n
        invariant
            i <= n,
            n == flags@.len(),
            cnt >= 0,
            acc == cap_i64(cnt),
            count_true(flags@, 0) == cnt + count_true(flags@, i as int),
        decreases n - i,
    {
        if flags[i] {
            if acc < i64::MAX {
                acc = acc + 1;
            }
            proof {
                cnt = cnt + 1;
            }
        }
        i = i + 1;
    }
    RespValue::Integer(acc)
}

/// The reply to a key count, as a protocol integer.
pub fn dbsize_reply(count: usize) -> (r: RespValue)
    ensures
        r@ == FrameModel::Integer(cap_i64(count as int)),
{
    let v: i64 = if count as u64 > i64::MAX as u64 {
        i64::MAX
    } else {
        count as i64
    };
    RespValue::Integer(v)
}

/// Law: `DEL` with three arguments where the first key exists and the
/// other two do not answers the integer 1, and leaves a store without
/// any of the three keys.
pub proof fn lemma_del_one_of_three(st: Map<Seq<u8>, RecModel>, args: Seq<RespValue>,
    k1: Seq<u8>, k2: Seq<u8>, k3: Seq<u8>)
    requires
        args.len() == 3,
        arg_bulk(args[0]) == Some(k1),
        arg_bulk(args[1]) == Some(k2),
        arg_bulk(args[2]) == Some(k3),
        st.contains_key(k1),
        !st.contains_key(k2),
        !st.contains_key(k3),
    ensures
        del_spec(st, args).1 == FrameModel::Integer(1),
        !del_spec(st, args).0.contains_key(k1),
        !del_spec(st, args).0.contains_key(k2),
        !del_spec(st, args).0.contains_key(k3),
{
    let st1 = st.remove(k1);
    let st2 = st1.remove(k2);
    let st3 = st2.remove(k3);
    assert(!st1.contains_key(k2));
    assert(!st2.contains_key(k3));
    assert(del_fold(st3, args, 3) == (st3, 0int));
    assert(del_fold(st2, args, 2) == (st3, 0int));
    assert(del_fold(st1, args, 1) == (st3, 0int));
    assert(del_fold(st, args, 0) == (st3, 1int));
}

/// Law: `EXISTS` with the same live key given twice answers the integer
/// 2: each occurrence in the argument list counts once.
pub proof fn lemma_exists_same_key_twice(st: Map<Seq<u8>, RecModel>, args: Seq<RespValue>,
    k: Seq<u8>, now: u64)
    requires
        args.len() == 2,
        arg_bulk(args[0]) == Some(k),
        arg_bulk(args[1]) == Some(k),
        st.contains_key(k),
        !crate::storage::spec_expired(st[k], now),
    ensures
        exists_spec(st, args, now).1 == FrameModel::Integer(2),
        exists_spec(st, args, now).0 == st,
{
    assert(lookup_res(st, k, now) is Some);
    assert(lookup_after(st, k, now) == st);
    assert(exists_fold(st, args, 2, now) == (st, 0int));
    assert(exists_fold(st, args, 1, now) == (st, 1int));
    assert(exists_fold(st, args, 0, now) == (st, 2int));
}

/// Append one `(key, value)` pair of bulk strings.
fn push_pair(results: &mut Vec<RespValue>, k: Vec<u8>, v: Vec<u8>)
    ensures
        frames_view(final(results)@) == frames_view(old(results)@) + bulk2(k@, v@),
{
    let ghost kv = k@;
    let ghost vv = v@;
    let ghost r0 = results@;
    proof {
        lemma_frames_view(r0);
        lemma_frames_view(r0.push(RespValue::BulkString(Some(k))));
    }
    results.push(RespValue::BulkString(Some(k)));
    let ghost r1 = results@;
    proof {
        assert(frames_view(r1) =~= frames_view(r0) + seq![FrameModel::BulkString(Some(kv))]);
        lemma_frames_view(r1.push(RespValue::BulkString(Some(v))));
        lemma_frames_view(r1);
    }
    results.push(RespValue::BulkString(Some(v)));
    proof {
        assert(frames_view(results@) =~= frames_view(r1)
            + seq![FrameModel::BulkString(Some(vv))]);
        assert(frames_view(results@) =~= frames_view(r0) + bulk2(kv, vv));
    }
}

} // verus!
