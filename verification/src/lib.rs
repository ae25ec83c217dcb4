//! A persistent, embeddable key/value storage engine with a framed wire
//! protocol.
//!
//! The storage core is a log-structured engine: mutations are appended to an
//! in-memory model of the segment log as self-delimiting JSON records, an
//! index maps each live key to the position of its latest `Set` record, and
//! an online compaction rewrites the live records into a fresh segment. The
//! wire side is a length-prefixed binary frame format with an in-band
//! compression bit and a buffered duplex codec that assembles complete frames
//! from arbitrary partial reads.

mod error;
mod text;
mod record;
mod kv;
mod frame;
mod stream;
mod service;
mod engines;
mod thread_pool;

pub use error::{KvsError, Result};
pub use text::{chars_to_string, str_chars, u64_to_string, parse_u64, parse_gen, log_path, sorted_gen_list};
pub use record::{Command, CmdV, encode_command, decode_command, encode_cmd, encode_all, parse_cmd, parse_all, escape_str, esc};
pub use kv::{CommandPos, SegmentFile, KvStore, COMPACTION_THRESHOLD, apply_cmd, apply_cmds, file_hists, replay_files, sat_add, sat_cap, record_len, shadow_of, lemma_durability, lemma_live_fits_disk, lemma_space_bound, lemma_snapshot_reopens, lemma_read_after_write, lemma_overwrite, lemma_remove_then_get};
pub use stream::DuplexStream;
pub use service::{Request, KvPair, CommandResponse, get_response, put_response, remove_response, error_response, dispatch_ok, serve_request, KvsServer, interpret_get, interpret_mutation, EngineKind, engine_name, parse_engine, resolve_engine};
pub use engines::{KvsEngine, SledKvsEngine, sled_value_outcome, sled_removal_outcome};
pub use thread_pool::{ThreadPool, RayonThreadPool};
pub use frame::{COMPRESSION_LIMIT, MAX_FRAME, gunzip_of, header_value, header_bytes, h_of, header_compressed, header_len, frame_ok, complete_frame_len, lemma_frame_payload_unique, encode_frame, decode_frame, FrameReader};
