//! The log-structured storage engine.
//!
//! The engine holds the segment log in memory: each segment is the character
//! contents of one `<gen>.log` file. Mutations append a command record to the
//! active segment and update the in-memory index, which maps each live key to
//! the position of its latest `Set` record. Compaction rewrites the live
//! records into a fresh segment and drops the older ones. A front end
//! persists the same characters to files and hands them back to [`KvStore::open`],
//! which replays the longest validly-decoding prefix of every segment.

use vstd::prelude::*;
use crate::error::{KvsError, Result};
use crate::record::{
    Command, CmdV, encode_cmd, encode_all, parse_cmd, parse_all, encode_command, decode_command,
    lemma_parse_cmd_encode, lemma_encode_all_push, push_all,
};

verus! {

/// How many shadowed bytes may accumulate before a mutation triggers
/// compaction.
pub const COMPACTION_THRESHOLD: u64 = 1024 * 1024;

/// The position of one record inside one segment: generation, offset and
/// length, in characters of the segment contents.
#[derive(Debug, Clone, Copy, PartialEq, Eq, Structural)]
pub struct CommandPos {
    pub gen: u64,
    pub pos: usize,
    pub len: usize,
}

impl CommandPos {
    /// The position of a record spanning `start` to `end` in segment `gen`.
    pub fn new(gen: u64, start: usize, end: usize) -> (r: CommandPos)
        requires
            start <= end,
        ensures
            r.gen == gen,
            r.pos == start,
            r.len == end - start,
    {
        CommandPos { gen, pos: start, len: end - start }
    }
}

/// One segment of the log: its generation, its characters, and the records
/// they encode.
pub struct Segment {
    gen: u64,
    data: Vec<char>,
    hist: Ghost<Seq<CmdV>>,
}

/// The raw contents of one segment file, as read from a directory.
pub struct SegmentFile {
    pub gen: u64,
    pub data: Vec<char>,
}

/// The effect of one record on the key/value map.
pub open spec fn apply_cmd(
    m: Map<Seq<char>, Seq<char>>,
    c: CmdV,
) -> Map<Seq<char>, Seq<char>> {
    match c {
        CmdV::Put { key, value } => m.insert(key, value),
        CmdV::Remove { key } => m.remove(key),
    }
}

/// The effect of a list of records, applied in order.
pub open spec fn apply_cmds(m: Map<Seq<char>, Seq<char>>, cs: Seq<CmdV>) -> Map<
    Seq<char>,
    Seq<char>,
>
    decreases cs.len(),
{
    if cs.len() == 0 {
        m
    } else {
        apply_cmd(apply_cmds(m, cs.drop_last()), cs.last())
    }
}

/// Appending one record applies it after the others.
pub proof fn lemma_apply_cmds_push(m: Map<Seq<char>, Seq<char>>, cs: Seq<CmdV>, c: CmdV)
    ensures
        apply_cmds(m, cs.push(c)) == apply_cmd(apply_cmds(m, cs), c),
{
    assert(cs.push(c).drop_last() =~= cs);
    assert(cs.push(c).last() == c);
}

/// The records of all segments, in segment order.
pub closed spec fn hists_of(segs: Seq<Segment>) -> Seq<CmdV>
    decreases segs.len(),
{
    if segs.len() == 0 {
        Seq::empty()
    } else {
        hists_of(segs.drop_last()) + segs.last().hist@
    }
}

/// The total character count of all segments.
pub closed spec fn sum_sizes(segs: Seq<Segment>) -> int
    decreases segs.len(),
{
    if segs.len() == 0 {
        0
    } else {
        sum_sizes(segs.drop_last()) + segs.last().data@.len()
    }
}

/// The total character count of the records the index points at.
pub open spec fn live_len(ix: Seq<(String, CommandPos)>) -> int
    decreases ix.len(),
{
    if ix.len() == 0 {
        0
    } else {
        live_len(ix.drop_last()) + ix.last().1.len
    }
}

/// Saturating addition, as the shadowed-byte counter performs it.
pub open spec fn sat_add(a: int, b: int) -> int {
    if a + b <= u64::MAX as int {
        a + b
    } else {
        u64::MAX as int
    }
}

/// The value a `u64` counter shows for an unbounded total `x`.
pub open spec fn sat_cap(x: int) -> int {
    if x <= u64::MAX as int {
        x
    } else {
        u64::MAX as int
    }
}

/// The length of the record that currently holds `key`, zero when absent.
pub open spec fn record_len(m: Map<Seq<char>, Seq<char>>, key: Seq<char>) -> int {
    if m.contains_key(key) {
        encode_cmd(CmdV::Put { key, value: m[key] }).len() as int
    } else {
        0
    }
}

/// The shadowed bytes that replaying a history accumulates: every displaced
/// record, and every tombstone itself.
pub open spec fn shadow_of(cs: Seq<CmdV>) -> int
    decreases cs.len(),
{
    if cs.len() == 0 {
        0
    } else {
        let m = apply_cmds(Map::<Seq<char>, Seq<char>>::empty(), cs.drop_last());
        shadow_of(cs.drop_last()) + match cs.last() {
            CmdV::Put { key, value } => record_len(m, key),
            CmdV::Remove { key } => record_len(m, key) + encode_cmd(cs.last()).len(),
        }
    }
}

/// A tombstone is never longer than the record it retires.
proof fn lemma_tombstone_not_longer(k: Seq<char>, v: Seq<char>)
    ensures
        encode_cmd(CmdV::Remove { key: k }).len() <= encode_cmd(
            CmdV::Put { key: k, value: v },
        ).len(),
{
}

/// The segment `si` holds, at position `p`, exactly the encoded `Set`
/// record of key `k` and its current value in `m`.
pub closed spec fn entry_at(
    segs: Seq<Segment>,
    m: Map<Seq<char>, Seq<char>>,
    k: Seq<char>,
    p: CommandPos,
    si: int,
) -> bool {
    &&& 0 <= si < segs.len()
    &&& segs[si].gen == p.gen
    &&& p.pos + p.len <= segs[si].data@.len()
    &&& m.contains_key(k)
    &&& segs[si].data@.subrange(p.pos as int, p.pos + p.len) == encode_cmd(
        CmdV::Put { key: k, value: m[k] },
    )
}

/// An index entry is valid: some segment holds, at the recorded position,
/// exactly the encoded `Set` record of this key and its current value.
pub closed spec fn entry_ok(
    segs: Seq<Segment>,
    m: Map<Seq<char>, Seq<char>>,
    k: Seq<char>,
    p: CommandPos,
) -> bool {
    exists|si: int| entry_at(segs, m, k, p, si)
}

/// The index holds key `k` at slot `i`.
pub open spec fn key_at(ix: Seq<(String, CommandPos)>, i: int, k: Seq<char>) -> bool {
    0 <= i < ix.len() && ix[i].0@ == k
}

/// Well-formedness of the engine state, over its components.
pub closed spec fn state_ok(
    segs: Seq<Segment>,
    ix: Seq<(String, CommandPos)>,
    m: Map<Seq<char>, Seq<char>>,
    dead: int,
    shadowed: int,
    unc: u64,
) -> bool {
    &&& (forall|i: int, j: int| 0 <= i < j < segs.len() ==> segs[i].gen < segs[j].gen)
    &&& (forall|i: int|
        0 <= i < segs.len() ==> (#[trigger] segs[i]).data@ == encode_all(segs[i].hist@))
    &&& m == apply_cmds(Map::<Seq<char>, Seq<char>>::empty(), hists_of(segs))
    &&& (forall|i: int, j: int| 0 <= i < j < ix.len() ==> ix[i].0@ != ix[j].0@)
    &&& (forall|i: int|
        0 <= i < ix.len() ==> m.contains_key((#[trigger] ix[i]).0@) && entry_ok(
            segs,
            m,
            ix[i].0@,
            ix[i].1,
        ))
    &&& (forall|k: Seq<char>| m.contains_key(k) ==> exists|i: int| key_at(ix, i, k))
    &&& sum_sizes(segs) == live_len(ix) + dead
    &&& 0 <= shadowed <= dead
    &&& dead <= 2 * shadowed
    &&& unc as int == sat_cap(shadowed)
}

/// The records recovered from a list of raw segment files, in order.
pub open spec fn file_hists(files: Seq<SegmentFile>) -> Seq<CmdV>
    decreases files.len(),
{
    if files.len() == 0 {
        Seq::empty()
    } else {
        file_hists(files.drop_last()) + parse_all(files.last().data@)
    }
}

/// The key/value map implied by a list of raw segment files.
pub open spec fn replay_files(files: Seq<SegmentFile>) -> Map<Seq<char>, Seq<char>> {
    apply_cmds(Map::<Seq<char>, Seq<char>>::empty(), file_hists(files))
}

/// The log-structured key/value store.
pub struct KvStore {
    segments: Vec<Segment>,
    index: Vec<(String, CommandPos)>,
    current_gen: u64,
    uncompacted: u64,
    model: Ghost<Map<Seq<char>, Seq<char>>>,
    dead: Ghost<int>,
    shadowed: Ghost<int>,
}

impl View for KvStore {
    type V = Map<Seq<char>, Seq<char>>;

    closed spec fn view(&self) -> Map<Seq<char>, Seq<char>> {
        self.model@
    }
}

impl KvStore {
    /// The engine invariant.
    pub closed spec fn wf(&self) -> bool {
        &&& state_ok(
            self.segments@,
            self.index@,
            self.model@,
            self.dead@,
            self.shadowed@,
            self.uncompacted,
        )
        &&& self.segments@.len() >= 1
        &&& self.segments@.last().gen == self.current_gen
    }

    /// The running count of shadowed bytes.
    pub closed spec fn spec_uncompacted(&self) -> u64 {
        self.uncompacted
    }

    /// The generation of the active segment.
    pub closed spec fn spec_current_gen(&self) -> u64 {
        self.current_gen
    }

    /// Whether two more generations can still be allocated, as compaction
    /// needs.
    pub open spec fn gen_headroom(&self) -> bool {
        self.spec_current_gen() <= u64::MAX - 2
    }

    /// The total character count of the segment log.
    pub closed spec fn spec_disk_size(&self) -> int {
        sum_sizes(self.segments@)
    }

    /// The total character count of the live records.
    pub closed spec fn spec_live_size(&self) -> int {
        live_len(self.index@)
    }

    /// The generations of the segment log, in order; the last is active.
    pub closed spec fn spec_gens(&self) -> Seq<u64> {
        self.segments@.map_values(|seg: Segment| seg.gen)
    }

    /// True when `files` is exactly the current segment log.
    pub closed spec fn matches_snapshot(&self, files: Seq<SegmentFile>) -> bool {
        &&& files.len() == self.segments@.len()
        &&& forall|i: int|
            0 <= i < files.len() ==> (#[trigger] files[i]).gen == self.segments@[i].gen
                && files[i].data@ == self.segments@[i].data@
    }
}

/// Removing an index entry removes its length from the live count.
proof fn lemma_live_len_remove(ix: Seq<(String, CommandPos)>, i: int)
    requires
        0 <= i < ix.len(),
    ensures
        live_len(ix.remove(i)) == live_len(ix) - ix[i].1.len,
    decreases ix.len(),
{
    if i == ix.len() - 1 {
        assert(ix.remove(i) =~= ix.drop_last());
    } else {
        assert(ix.remove(i).len() == ix.len() - 1);
        assert(ix.remove(i).drop_last() =~= ix.drop_last().remove(i));
        assert(ix.remove(i).last() == ix.last());
        lemma_live_len_remove(ix.drop_last(), i);
        assert(ix.drop_last()[i] == ix[i]);
    }
}

/// Adding an index entry adds its length to the live count.
proof fn lemma_live_len_push(ix: Seq<(String, CommandPos)>, e: (String, CommandPos))
    ensures
        live_len(ix.push(e)) == live_len(ix) + e.1.len,
{
    assert(ix.push(e).drop_last() =~= ix);
    assert(ix.push(e).last() == e);
}

/// A valid entry stays valid when every segment only grows at its end and
/// the key's value is unchanged.
proof fn lemma_entry_ok_extend(
    segs0: Seq<Segment>,
    segs1: Seq<Segment>,
    m0: Map<Seq<char>, Seq<char>>,
    m1: Map<Seq<char>, Seq<char>>,
    k: Seq<char>,
    p: CommandPos,
)
    requires
        entry_ok(segs0, m0, k, p),
        segs1.len() == segs0.len(),
        forall|i: int| 0 <= i < segs0.len() ==> (#[trigger] segs1[i]).gen == segs0[i].gen,
        forall|i: int|
            0 <= i < segs0.len() ==> segs0[i].data@.len() <= (#[trigger] segs1[i]).data@.len()
                && segs1[i].data@.subrange(0, segs0[i].data@.len() as int) == segs0[i].data@,
        m1.contains_key(k),
        m1[k] == m0[k],
    ensures
        entry_ok(segs1, m1, k, p),
{
    let si = choose|si: int| entry_at(segs0, m0, k, p, si);
    assert(segs1[si].data@.subrange(p.pos as int, p.pos + p.len) =~= segs0[si].data@.subrange(
        p.pos as int,
        p.pos + p.len,
    )) by {
        assert(forall|x: int|
            0 <= x < segs0[si].data@.len() ==> segs1[si].data@[x] == segs0[si].data@.subrange(
                0,
                segs0[si].data@.len() as int,
            )[x]);
    }
    assert(entry_at(segs1, m1, k, p, si));
}

/// Looks up a key in the index, returning its slot.
fn index_find(ix: &Vec<(String, CommandPos)>, key: &String) -> (r: Option<usize>)
    ensures
        match r {
            Some(i) => key_at(ix@, i as int, key@),
            None => forall|i: int| 0 <= i < ix@.len() ==> !key_at(ix@, i, key@),
        },
{
    let mut i: usize = 0;
    while i < ix.len()
        invariant
            i <= ix@.len(),
            forall|j: int| 0 <= j < i ==> ix@[j].0@ != key@,
        decreases ix@.len() - i,
    {
        if ix[i].0 == *key {
            return Some(i);
        }
        i = i + 1;
    }
    None
}

/// Adds without wrapping: the count sticks at the maximum instead.
fn sat_add_u64(a: u64, b: u64) -> (r: u64)
    ensures
        r as int == sat_add(a as int, b as int),
{
    if b <= u64::MAX - a {
        a + b
    } else {
        u64::MAX
    }
}

impl KvStore {
    /// Appends the record `cmd` to the active segment and returns the
    /// position of the appended characters.
    fn append_record(&mut self, cmd: &Command) -> (r: CommandPos)
        requires
            old(self).wf(),
        ensures
            r.gen == old(self).spec_current_gen(),
            final(self).segments@.len() == old(self).segments@.len(),
            forall|i: int|
                0 <= i < old(self).segments@.len() - 1 ==> final(self).segments@[i] == old(
                    self,
                ).segments@[i],
            ({
                let s0 = old(self).segments@.last();
                let s1 = final(self).segments@.last();
                &&& s1.gen == s0.gen
                &&& r.pos == s0.data@.len()
                &&& r.len == encode_cmd(cmd@).len()
                &&& s1.data@ == s0.data@ + encode_cmd(cmd@)
                &&& s1.hist@ == s0.hist@.push(cmd@)
            }),
            final(self).index == old(self).index,
            final(self).current_gen == old(self).current_gen,
            final(self).uncompacted == old(self).uncompacted,
            final(self).model == old(self).model,
            final(self).dead == old(self).dead,
            final(self).shadowed == old(self).shadowed,
    {
        let enc = encode_command(cmd);
        let mut seg = self.segments.pop().unwrap();
        let epos = seg.data.len();
        push_all(&mut seg.data, &enc);
        let end = seg.data.len();
        proof {
            lemma_encode_all_push(seg.hist@, cmd@);
            assert(end == epos + enc@.len());
        }
        seg.hist = Ghost(seg.hist@.push(cmd@));
        let gen = seg.gen;
        self.segments.push(seg);
        CommandPos::new(gen, epos, end)
    }

    /// Sets `key` to `value`.
    ///
    /// The key/value map gains (or overwrites) the binding; if the count of
    /// shadowed bytes then exceeds the compaction threshold and fresh
    /// generations are available, the log is compacted in the same call.
    pub fn set(&mut self, key: String, value: String) -> (r: Result<()>)
        requires
            old(self).wf(),
        ensures
            r is Ok,
            final(self).wf(),
            final(self)@ == old(self)@.insert(key@, value@),
            ({
                let grown = sat_add(
                    old(self).spec_uncompacted() as int,
                    record_len(old(self)@, key@),
                );
                final(self).spec_uncompacted() as int == if grown > COMPACTION_THRESHOLD as int
                    && old(self).gen_headroom() {
                    0
                } else {
                    grown
                }
            }),
            old(self).gen_headroom() ==> final(self).spec_uncompacted()
                <= COMPACTION_THRESHOLD,
            old(self).gen_headroom() ==> final(self).spec_disk_size()
                <= final(self).spec_live_size() + 2 * (COMPACTION_THRESHOLD as int),
    {
        let ghost m0 = self.model@;
        let ghost segs0 = self.segments@;
        let ghost ix0 = self.index@;
        let ghost k = key@;
        let ghost v = value@;
        let cmd = Command::Put { key: key.clone(), value };
        let newpos = self.append_record(&cmd);
        let ghost segs1 = self.segments@;
        let ghost elen = encode_cmd(cmd@).len() as int;
        proof {
            lemma_segments_extended(segs0, segs1, cmd@);
            lemma_apply_cmds_push(
                Map::<Seq<char>, Seq<char>>::empty(),
                hists_of(segs0),
                cmd@,
            );
            assert(apply_cmds(Map::<Seq<char>, Seq<char>>::empty(), hists_of(segs1))
                == m0.insert(k, v));
            assert(cmd@ == (CmdV::Put { key: k, value: v }));
            assert(segs1.last().data@.subrange(newpos.pos as int, newpos.pos + newpos.len)
                =~= encode_cmd(CmdV::Put { key: k, value: v }));
        }
        self.model = Ghost(m0.insert(k, v));
        let ghost m1 = self.model@;
        let found = index_find(&self.index, &key);
        match found {
            Some(i) => {
                let displaced = self.index[i].1.len;
                proof {
                    lemma_live_len_remove(ix0, i as int);
                    assert(m0.contains_key(ix0[i as int].0@) && entry_ok(
                        segs0,
                        m0,
                        ix0[i as int].0@,
                        ix0[i as int].1,
                    ));
                    let si = choose|si: int| entry_at(segs0, m0, k, ix0[i as int].1, si);
                    assert(segs0[si].data@.subrange(
                        ix0[i as int].1.pos as int,
                        ix0[i as int].1.pos + ix0[i as int].1.len,
                    ).len() == ix0[i as int].1.len);
                    assert(displaced as int == record_len(m0, k));
                }
                self.index.remove(i);
                self.index.push((key, newpos));
                self.uncompacted = sat_add_u64(self.uncompacted, displaced as u64);
                self.dead = Ghost(self.dead@ + displaced as int);
                self.shadowed = Ghost(self.shadowed@ + displaced as int);
                proof {
                    let ix1 = self.index@;
                    lemma_live_len_push(ix0.remove(i as int), (ix1.last().0, newpos));
                    assert(ix1.drop_last() =~= ix0.remove(i as int));
                    assert(live_len(ix1) == live_len(ix0) - displaced + elen);
                    lemma_set_index_ok(segs0, segs1, ix0, ix1, m0, m1, k, v, newpos, i as int);
                    assert(self.uncompacted as int == sat_cap(self.shadowed@));
                }
            },
            None => {
                self.index.push((key, newpos));
                proof {
                    let ix1 = self.index@;
                    assert(ix1.drop_last() =~= ix0);
                    assert(live_len(ix1) == live_len(ix0) + elen);
                    assert(!m0.contains_key(k)) by {
                        if m0.contains_key(k) {
                            let j = choose|j: int| key_at(ix0, j, k);
                            assert(!key_at(ix0, j, k));
                        }
                    }
                    assert(record_len(m0, k) == 0);
                    lemma_set_index_new(segs0, segs1, ix0, ix1, m0, m1, k, v, newpos);
                }
            },
        }
        proof {
            assert(sum_sizes(segs1) == sum_sizes(segs0) + elen) by {
                assert(segs1.drop_last() =~= segs0.drop_last());
            }
            assert(self.wf());
            assert(self.uncompacted as int == sat_add(
                old(self).spec_uncompacted() as int,
                record_len(m0, k),
            ));
        }
        if self.uncompacted > COMPACTION_THRESHOLD {
            if self.current_gen <= u64::MAX - 2 {
                match self.compact() {
                    Ok(()) => {},
                    Err(e) => {
                        return Err(e);
                    },
                }
            }
        }
        proof {
            if old(self).gen_headroom() {
                assert(self.spec_disk_size() <= self.spec_live_size() + 2 * (
                COMPACTION_THRESHOLD as int));
            }
        }
        Ok(())
    }
}

/// Appends the characters of `src` between `from` and `to` to `out`.
fn push_range(out: &mut Vec<char>, src: &Vec<char>, from: usize, to: usize)
    requires
        from <= to <= src@.len(),
    ensures
        final(out)@ == old(out)@ + src@.subrange(from as int, to as int),
{
    let mut j = from;
    while j < to
        invariant
            from <= j <= to <= src@.len(),
            out@ == old(out)@ + src@.subrange(from as int, j as int),
        decreases to - j,
    {
        out.push(src[j]);
        j = j + 1;
        proof {
            assert(out@ =~= old(out)@ + src@.subrange(from as int, j as int));
        }
    }
}

/// Index lists whose entries record the same lengths carry the same live
/// count.
proof fn lemma_live_len_congruent(a: Seq<(String, CommandPos)>, b: Seq<(String, CommandPos)>)
    requires
        a.len() == b.len(),
        forall|j: int| 0 <= j < a.len() ==> a[j].1.len == b[j].1.len,
    ensures
        live_len(a) == live_len(b),
    decreases a.len(),
{
    if a.len() > 0 {
        assert(forall|j: int| 0 <= j < a.drop_last().len() ==> a.drop_last()[j] == a[j]);
        assert(forall|j: int| 0 <= j < b.drop_last().len() ==> b.drop_last()[j] == b[j]);
        lemma_live_len_congruent(a.drop_last(), b.drop_last());
    }
}

/// Applying a list of `Set` records of distinct live keys rebuilds exactly
/// those bindings.
proof fn lemma_apply_puts_prefix(
    ix: Seq<(String, CommandPos)>,
    m: Map<Seq<char>, Seq<char>>,
    cs: Seq<CmdV>,
)
    requires
        cs.len() <= ix.len(),
        forall|j: int|
            0 <= j < cs.len() ==> cs[j] == (CmdV::Put {
                key: ix[j].0@,
                value: m[ix[j].0@],
            }),
        forall|j: int| 0 <= j < ix.len() ==> m.contains_key((#[trigger] ix[j]).0@),
    ensures
        forall|j: int|
            0 <= j < cs.len() ==> {
                let mm = apply_cmds(Map::<Seq<char>, Seq<char>>::empty(), cs);
                mm.contains_key((#[trigger] ix[j]).0@) && mm[ix[j].0@] == m[ix[j].0@]
            },
        forall|k: Seq<char>|
            apply_cmds(Map::<Seq<char>, Seq<char>>::empty(), cs).contains_key(k)
                ==> exists|j: int| 0 <= j < cs.len() && (#[trigger] ix[j]).0@ == k,
    decreases cs.len(),
{
    if cs.len() > 0 {
        let prev = cs.drop_last();
        assert(forall|j: int| 0 <= j < prev.len() ==> prev[j] == cs[j]);
        lemma_apply_puts_prefix(ix, m, prev);
        let mp = apply_cmds(Map::<Seq<char>, Seq<char>>::empty(), prev);
        let kl = ix[cs.len() - 1].0@;
        assert(cs.last() == (CmdV::Put { key: kl, value: m[kl] }));
        let mm = apply_cmds(Map::<Seq<char>, Seq<char>>::empty(), cs);
        assert(mm == mp.insert(kl, m[kl]));
        assert forall|k: Seq<char>| mm.contains_key(k) implies exists|j: int|
            0 <= j < cs.len() && (#[trigger] ix[j]).0@ == k by {
            if k == kl {
                assert(ix[cs.len() - 1].0@ == k);
            } else {
                assert(mp.contains_key(k));
            }
        }
    }
}

impl KvStore {
    /// Finds the segment a valid entry points into.
    fn find_segment(&self, p: CommandPos, Ghost(k): Ghost<Seq<char>>) -> (si: usize)
        requires
            self.wf(),
            entry_ok(self.segments@, self.model@, k, p),
        ensures
            entry_at(self.segments@, self.model@, k, p, si as int),
    {
        let ghost si0 = choose|si: int| entry_at(self.segments@, self.model@, k, p, si);
        proof {
            assert(self.segments.len() == self.segments@.len());
        }
        let mut si: usize = 0;
        loop
            invariant
                self.wf(),
                entry_at(self.segments@, self.model@, k, p, si0),
                self.segments@.len() <= usize::MAX,
                si <= si0,
            ensures
                si as int <= si0 < self.segments@.len(),
                self.segments@[si as int].gen == p.gen,
            decreases si0 - si,
        {
            if self.segments[si].gen == p.gen {
                break ;
            }
            proof {
                assert(si as int != si0);
            }
            si = si + 1;
        }
        proof {
            assert(si as int == si0) by {
                if (si as int) < si0 {
                    assert(self.segments@[si as int].gen < self.segments@[si0].gen);
                }
            }
        }
        si
    }

    /// Compacts the log: rewrites every live record into a fresh segment,
    /// drops the old segments, and resets the shadowed-byte count.
    ///
    /// The key/value map is unchanged; afterwards the log holds exactly the
    /// live records, so its size cannot have grown.
    pub fn compact(&mut self) -> (r: Result<()>)
        requires
            old(self).wf(),
            old(self).gen_headroom(),
        ensures
            r is Ok,
            final(self).wf(),
            final(self)@ == old(self)@,
            final(self).spec_uncompacted() == 0,
            final(self).spec_disk_size() == final(self).spec_live_size(),
            final(self).spec_live_size() == old(self).spec_live_size(),
            final(self).spec_disk_size() <= old(self).spec_disk_size(),
            final(self).spec_current_gen() as int == old(self).spec_current_gen() as int + 2,
            final(self).spec_gens().len() == 2,
            final(self).spec_gens()[0] as int == old(self).spec_current_gen() as int + 1,
            final(self).spec_gens()[1] as int == old(self).spec_current_gen() as int + 2,
    {
        let ghost m = self.model@;
        let ghost segs0 = self.segments@;
        let ghost ix0 = self.index@;
        let compaction_gen = self.current_gen + 1;
        let new_gen = self.current_gen + 2;
        let mut cdata: Vec<char> = Vec::new();
        let ghost mut chist = Seq::<CmdV>::empty();
        let mut new_index: Vec<(String, CommandPos)> = Vec::new();
        let mut i: usize = 0;
        while i < self.index.len()
            invariant
                self.wf(),
                self.segments@ == segs0,
                self.index@ == ix0,
                self.model@ == m,
                i <= ix0.len(),
                new_index@.len() == i,
                chist.len() == i,
                cdata@ == encode_all(chist),
                cdata@.len() <= usize::MAX,
                live_len(new_index@) == cdata@.len() as int,
                forall|j: int|
                    0 <= j < i ==> chist[j] == (CmdV::Put {
                        key: ix0[j].0@,
                        value: m[ix0[j].0@],
                    }),
                forall|j: int|
                    0 <= j < i ==> (#[trigger] new_index@[j]).0 == ix0[j].0
                        && new_index@[j].1.len == ix0[j].1.len && new_index@[j].1.gen
                        == compaction_gen && new_index@[j].1.pos + new_index@[j].1.len
                        <= cdata@.len() && cdata@.subrange(
                        new_index@[j].1.pos as int,
                        new_index@[j].1.pos + new_index@[j].1.len,
                    ) == encode_cmd(CmdV::Put { key: ix0[j].0@, value: m[ix0[j].0@] }),
            decreases ix0.len() - i,
        {
            let key_i = self.index[i].0.clone();
            let p = self.index[i].1;
            let ghost k = key_i@;
            proof {
                assert(m.contains_key(ix0[i as int].0@) && entry_ok(segs0, m, ix0[i as int].0@, p));
                assert(k == ix0[i as int].0@);
            }
            let si = self.find_segment(p, Ghost(k));
            let seg = &self.segments[si];
            let dlen = seg.data.len();
            proof {
                assert(dlen == seg.data@.len());
                assert(p.pos + p.len <= dlen);
            }
            let cpos = cdata.len();
            let ghost cdata0 = cdata@;
            push_range(&mut cdata, &seg.data, p.pos, p.pos + p.len);
            proof {
                assert(cdata@ == cdata0 + encode_cmd(CmdV::Put { key: k, value: m[k] }));
                lemma_encode_all_push(chist, CmdV::Put { key: k, value: m[k] });
                chist = chist.push(CmdV::Put { key: k, value: m[k] });
                assert(cdata@ == encode_all(chist));
                assert(cdata.len() == cdata@.len());
            }
            let np = CommandPos { gen: compaction_gen, pos: cpos, len: p.len };
            let ghost ni0 = new_index@;
            new_index.push((key_i, np));
            proof {
                assert(encode_cmd(CmdV::Put { key: k, value: m[k] }).len() == p.len);
                assert(new_index@ == ni0.push(new_index@.last()));
                lemma_live_len_push(ni0, new_index@.last());
                assert(live_len(new_index@) == cdata@.len() as int);
                assert forall|j: int|
                    0 <= j < i + 1 implies (#[trigger] new_index@[j]).0 == ix0[j].0
                        && new_index@[j].1.len == ix0[j].1.len && new_index@[j].1.gen
                        == compaction_gen && new_index@[j].1.pos + new_index@[j].1.len
                        <= cdata@.len() && cdata@.subrange(
                        new_index@[j].1.pos as int,
                        new_index@[j].1.pos + new_index@[j].1.len,
                    ) == encode_cmd(CmdV::Put { key: ix0[j].0@, value: m[ix0[j].0@] }) by {
                    if j < i {
                        assert(cdata@.subrange(
                            new_index@[j].1.pos as int,
                            new_index@[j].1.pos + new_index@[j].1.len,
                        ) =~= cdata0.subrange(
                            new_index@[j].1.pos as int,
                            new_index@[j].1.pos + new_index@[j].1.len,
                        ));
                    } else {
                        assert(new_index@[j].1 == np);
                        assert(cdata@.subrange(cpos as int, cpos + p.len as int) =~= encode_cmd(
                            CmdV::Put { key: k, value: m[k] },
                        ));
                    }
                }
            }
            i = i + 1;
        }
        let mut new_segments: Vec<Segment> = Vec::new();
        new_segments.push(Segment { gen: compaction_gen, data: cdata, hist: Ghost(chist) });
        new_segments.push(
            Segment { gen: new_gen, data: Vec::new(), hist: Ghost(Seq::<CmdV>::empty()) },
        );
        self.segments = new_segments;
        self.index = new_index;
        self.current_gen = new_gen;
        self.uncompacted = 0;
        self.dead = Ghost(0);
        self.shadowed = Ghost(0);
        proof {
            let segs1 = self.segments@;
            let ix1 = self.index@;
            assert(segs1.len() == 2);
            let dl = segs1.drop_last();
            assert(dl.len() == 1);
            assert(dl.last() == segs1[0]);
            assert(dl.drop_last() =~= Seq::<Segment>::empty());
            assert(hists_of(dl.drop_last()) == Seq::<CmdV>::empty());
            assert(hists_of(dl) == hists_of(dl.drop_last()) + dl.last().hist@);
            assert(hists_of(segs1) == hists_of(dl) + segs1.last().hist@);
            assert(segs1[0].hist@ == chist);
            assert(segs1.last().hist@ == Seq::<CmdV>::empty());
            assert(hists_of(segs1) =~= chist);
            assert(sum_sizes(dl) == sum_sizes(dl.drop_last()) + dl.last().data@.len());
            assert(sum_sizes(segs1) == sum_sizes(dl) + segs1.last().data@.len());
            assert(segs1.last().data@.len() == 0);
            assert(sum_sizes(segs1) == segs1[0].data@.len());
            lemma_apply_puts_prefix(ix0, m, chist);
            let mm = apply_cmds(Map::<Seq<char>, Seq<char>>::empty(), chist);
            assert(mm =~= m) by {
                assert forall|k2: Seq<char>| m.contains_key(k2) implies mm.contains_key(k2)
                    && mm[k2] == m[k2] by {
                    let j = choose|j: int| key_at(ix0, j, k2);
                    assert(ix0[j].0@ == k2);
                }
                assert forall|k2: Seq<char>| mm.contains_key(k2) implies m.contains_key(
                    k2,
                ) by {
                    let j = choose|j: int| 0 <= j < chist.len() && (#[trigger] ix0[j]).0@ == k2;
                    assert(m.contains_key(ix0[j].0@));
                }
            }
            assert(self.model@ == apply_cmds(
                Map::<Seq<char>, Seq<char>>::empty(),
                hists_of(segs1),
            ));
            assert forall|a: int, b: int| 0 <= a < b < ix1.len() implies ix1[a].0@
                != ix1[b].0@ by {
                assert(ix1[a].0 == ix0[a].0 && ix1[b].0 == ix0[b].0);
            }
            assert forall|a: int|
                0 <= a < ix1.len() implies m.contains_key((#[trigger] ix1[a]).0@) && entry_ok(
                segs1,
                m,
                ix1[a].0@,
                ix1[a].1,
            ) by {
                assert(ix1[a].0 == ix0[a].0);
                assert(entry_at(segs1, m, ix1[a].0@, ix1[a].1, 0));
            }
            assert forall|k2: Seq<char>| m.contains_key(k2) implies exists|a: int|
                key_at(ix1, a, k2) by {
                let j = choose|j: int| key_at(ix0, j, k2);
                assert(ix1[j].0 == ix0[j].0);
                assert(key_at(ix1, j, k2));
            }
            lemma_live_len_congruent(ix1, ix0);
            assert(self.wf());
            assert(live_len(ix0) + old(self).dead@ == sum_sizes(segs0));
            assert(self.spec_gens().len() == 2);
            assert(self.spec_gens()[0] == compaction_gen);
            assert(self.spec_gens()[1] == new_gen);
        }
        Ok(())
    }

    /// Removes `key`.
    ///
    /// Appends a tombstone record and drops the key from the index; a key
    /// that is not present is reported as `KeyNotFound` without any change.
    pub fn remove(&mut self, key: String) -> (r: Result<()>)
        requires
            old(self).wf(),
        ensures
            final(self).wf(),
            match r {
                Ok(()) => {
                    &&& old(self)@.contains_key(key@)
                    &&& final(self)@ == old(self)@.remove(key@)
                    &&& final(self).spec_uncompacted() as int == sat_add(
                        old(self).spec_uncompacted() as int,
                        record_len(old(self)@, key@),
                    )
                },
                Err(e) => {
                    &&& e == KvsError::KeyNotFound
                    &&& !old(self)@.contains_key(key@)
                    &&& final(self)@ == old(self)@
                    &&& final(self).spec_uncompacted() == old(self).spec_uncompacted()
                },
            },
    {
        let found = index_find(&self.index, &key);
        match found {
            None => {
                proof {
                    assert(!self.model@.contains_key(key@)) by {
                        if self.model@.contains_key(key@) {
                            let j = choose|j: int| key_at(self.index@, j, key@);
                            assert(!key_at(self.index@, j, key@));
                        }
                    }
                }
                Err(KvsError::KeyNotFound)
            },
            Some(i) => {
                let ghost m0 = self.model@;
                let ghost segs0 = self.segments@;
                let ghost ix0 = self.index@;
                let ghost k = key@;
                let cmd = Command::Remove { key };
                self.append_record(&cmd);
                let ghost segs1 = self.segments@;
                let ghost elen = encode_cmd(cmd@).len() as int;
                proof {
                    lemma_segments_extended(segs0, segs1, cmd@);
                    lemma_apply_cmds_push(
                        Map::<Seq<char>, Seq<char>>::empty(),
                        hists_of(segs0),
                        cmd@,
                    );
                    assert(apply_cmds(Map::<Seq<char>, Seq<char>>::empty(), hists_of(segs1))
                        == m0.remove(k));
                }
                self.model = Ghost(m0.remove(k));
                let ghost m1 = self.model@;
                let displaced = self.index[i].1.len;
                proof {
                    lemma_live_len_remove(ix0, i as int);
                    assert(m0.contains_key(ix0[i as int].0@) && entry_ok(
                        segs0,
                        m0,
                        ix0[i as int].0@,
                        ix0[i as int].1,
                    ));
                    let si = choose|si: int| entry_at(segs0, m0, k, ix0[i as int].1, si);
                    assert(segs0[si].data@.subrange(
                        ix0[i as int].1.pos as int,
                        ix0[i as int].1.pos + ix0[i as int].1.len,
                    ).len() == ix0[i as int].1.len);
                    assert(displaced as int == record_len(m0, k));
                    lemma_tombstone_not_longer(k, m0[k]);
                    assert(elen <= displaced as int);
                }
                self.index.remove(i);
                self.uncompacted = sat_add_u64(self.uncompacted, displaced as u64);
                self.dead = Ghost(self.dead@ + displaced as int + elen);
                self.shadowed = Ghost(self.shadowed@ + displaced as int);
                proof {
                    let ix1 = self.index@;
                    assert(live_len(ix1) == live_len(ix0) - displaced);
                    assert(sum_sizes(segs1) == sum_sizes(segs0) + elen) by {
                        assert(segs1.drop_last() =~= segs0.drop_last());
                    }
                    lemma_remove_index_ok(segs0, segs1, ix0, ix1, m0, m1, k, i as int);
                    assert(self.wf());
                }
                Ok(())
            },
        }
    }

    /// Looks up `key`.
    ///
    /// Returns the current value, or `None` when the key is absent.
    pub fn get(&self, key: String) -> (r: Result<Option<String>>)
        requires
            self.wf(),
        ensures
            match r {
                Ok(Some(v)) => self@.contains_key(key@) && v@ == self@[key@],
                Ok(None) => !self@.contains_key(key@),
                Err(_) => false,
            },
    {
        let found = index_find(&self.index, &key);
        match found {
            None => {
                proof {
                    assert(!self.model@.contains_key(key@)) by {
                        if self.model@.contains_key(key@) {
                            let j = choose|j: int| key_at(self.index@, j, key@);
                            assert(!key_at(self.index@, j, key@));
                        }
                    }
                }
                Ok(None)
            },
            Some(i) => {
                let p = self.index[i].1;
                proof {
                    assert(entry_ok(self.segments@, self.model@, key@, p));
                }
                let si = self.find_segment(p, Ghost(key@));
                let seg = &self.segments[si];
                let ghost m = self.model@;
                let ghost k = key@;
                proof {
                    let enc = encode_cmd(CmdV::Put { key: k, value: m[k] });
                    assert(seg.data@.skip(p.pos as int) =~= enc + seg.data@.skip(
                        p.pos + p.len,
                    ));
                    lemma_parse_cmd_encode(
                        CmdV::Put { key: k, value: m[k] },
                        seg.data@.skip(p.pos + p.len),
                    );
                }
                match decode_command(&seg.data, p.pos) {
                    Some(cn) => {
                        let (c, _n) = cn;
                        match c {
                            Command::Put { value, .. } => {
                                proof {
                                    assert(value@ == m[k]);
                                }
                                Ok(Some(value))
                            },
                            Command::Remove { .. } => {
                                proof {
                                    assert(false);
                                }
                                Err(KvsError::UnexpectedCommandType)
                            },
                        }
                    },
                    None => {
                        proof {
                            assert(false);
                        }
                        Err(KvsError::UnexpectedCommandType)
                    },
                }
            },
        }
    }
}

/// Re-establishes the index part of the invariant after a removal.
proof fn lemma_remove_index_ok(
    segs0: Seq<Segment>,
    segs1: Seq<Segment>,
    ix0: Seq<(String, CommandPos)>,
    ix1: Seq<(String, CommandPos)>,
    m0: Map<Seq<char>, Seq<char>>,
    m1: Map<Seq<char>, Seq<char>>,
    k: Seq<char>,
    i: int,
)
    requires
        segs0.len() >= 1,
        segs1.len() == segs0.len(),
        forall|i2: int| 0 <= i2 < segs1.len() ==> (#[trigger] segs1[i2]).gen == segs0[i2].gen,
        forall|i2: int|
            0 <= i2 < segs0.len() ==> segs0[i2].data@.len() <= (
            #[trigger] segs1[i2]).data@.len() && segs1[i2].data@.subrange(
                0,
                segs0[i2].data@.len() as int,
            ) == segs0[i2].data@,
        forall|a: int, b: int| 0 <= a < b < ix0.len() ==> ix0[a].0@ != ix0[b].0@,
        forall|a: int|
            0 <= a < ix0.len() ==> m0.contains_key((#[trigger] ix0[a]).0@) && entry_ok(
                segs0,
                m0,
                ix0[a].0@,
                ix0[a].1,
            ),
        forall|k2: Seq<char>| m0.contains_key(k2) ==> exists|a: int| key_at(ix0, a, k2),
        0 <= i < ix0.len(),
        ix0[i].0@ == k,
        m1 == m0.remove(k),
        ix1 == ix0.remove(i),
    ensures
        forall|a: int, b: int| 0 <= a < b < ix1.len() ==> ix1[a].0@ != ix1[b].0@,
        forall|a: int|
            0 <= a < ix1.len() ==> m1.contains_key((#[trigger] ix1[a]).0@) && entry_ok(
                segs1,
                m1,
                ix1[a].0@,
                ix1[a].1,
            ),
        forall|k2: Seq<char>| m1.contains_key(k2) ==> exists|a: int| key_at(ix1, a, k2),
{
    let n = ix1.len() as int;
    assert forall|a: int|
        0 <= a < n implies ix1[a] == (if a < i {
        ix0[a]
    } else {
        ix0[a + 1]
    }) by {
        if a < i {
            assert(ix0.remove(i)[a] == ix0.subrange(0, i)[a]);
            assert(ix0.subrange(0, i)[a] == ix0[a]);
        } else {
            assert(ix0.remove(i)[a] == ix0.subrange(i + 1, ix0.len() as int)[a - i]);
            assert(ix0.subrange(i + 1, ix0.len() as int)[a - i] == ix0[a + 1]);
        }
    }
    assert forall|a: int, b: int| 0 <= a < b < n implies ix1[a].0@ != ix1[b].0@ by {
        let a0 = if a < i {
            a
        } else {
            a + 1
        };
        let b0 = if b < i {
            b
        } else {
            b + 1
        };
        assert(ix1[a] == ix0[a0] && ix1[b] == ix0[b0]);
        assert(a0 < b0);
    }
    assert forall|a: int|
        0 <= a < n implies m1.contains_key((#[trigger] ix1[a]).0@) && entry_ok(
        segs1,
        m1,
        ix1[a].0@,
        ix1[a].1,
    ) by {
        let a0 = if a < i {
            a
        } else {
            a + 1
        };
        assert(ix1[a] == ix0[a0]);
        let k2 = ix0[a0].0@;
        assert(a0 != i);
        if a0 < i {
            assert(ix0[a0].0@ != ix0[i].0@);
        } else {
            assert(ix0[i].0@ != ix0[a0].0@);
        }
        assert(k2 != k);
        assert(m1.contains_key(k2) && m1[k2] == m0[k2]);
        lemma_entry_ok_extend(segs0, segs1, m0, m1, k2, ix0[a0].1);
    }
    assert forall|k2: Seq<char>| m1.contains_key(k2) implies exists|a: int|
        key_at(ix1, a, k2) by {
        assert(k2 != k);
        assert(m0.contains_key(k2));
        let a0 = choose|a: int| key_at(ix0, a, k2);
        assert(a0 != i);
        let a1 = if a0 < i {
            a0
        } else {
            a0 - 1
        };
        assert(ix1[a1] == ix0[a0]);
        assert(key_at(ix1, a1, k2));
    }
}

/// After `append_record`, the segment list is the old one with the record
/// appended to the active segment: the histories gain the record, and the
/// per-segment encoding invariant is kept.
proof fn lemma_segments_extended(segs0: Seq<Segment>, segs1: Seq<Segment>, c: CmdV)
    requires
        segs0.len() >= 1,
        segs1.len() == segs0.len(),
        forall|i: int| 0 <= i < segs0.len() - 1 ==> #[trigger] segs1[i] == segs0[i],
        segs1.last().gen == segs0.last().gen,
        segs1.last().data@ == segs0.last().data@ + encode_cmd(c),
        segs1.last().hist@ == segs0.last().hist@.push(c),
        forall|i: int|
            0 <= i < segs0.len() ==> (#[trigger] segs0[i]).data@ == encode_all(segs0[i].hist@),
        forall|i: int, j: int| 0 <= i < j < segs0.len() ==> segs0[i].gen < segs0[j].gen,
    ensures
        hists_of(segs1) == hists_of(segs0).push(c),
        forall|i: int|
            0 <= i < segs1.len() ==> (#[trigger] segs1[i]).data@ == encode_all(segs1[i].hist@),
        forall|i: int, j: int| 0 <= i < j < segs1.len() ==> segs1[i].gen < segs1[j].gen,
        forall|i: int| 0 <= i < segs1.len() ==> (#[trigger] segs1[i]).gen == segs0[i].gen,
        forall|i: int|
            0 <= i < segs0.len() ==> segs0[i].data@.len() <= (#[trigger] segs1[i]).data@.len()
                && segs1[i].data@.subrange(0, segs0[i].data@.len() as int) == segs0[i].data@,
{
    assert(segs1.drop_last() =~= segs0.drop_last());
    assert(hists_of(segs1) == hists_of(segs0.drop_last()) + segs1.last().hist@);
    assert(hists_of(segs0) == hists_of(segs0.drop_last()) + segs0.last().hist@);
    assert(hists_of(segs1) =~= hists_of(segs0).push(c));
    lemma_encode_all_push(segs0.last().hist@, c);
    assert forall|i: int|
        0 <= i < segs0.len() implies segs0[i].data@.len() <= (
    #[trigger] segs1[i]).data@.len() && segs1[i].data@.subrange(
        0,
        segs0[i].data@.len() as int,
    ) == segs0[i].data@ by {
        if i == segs0.len() - 1 {
            assert(segs1[i] == segs1.last());
            assert(segs0[i] == segs0.last());
            assert(segs1[i].data@.subrange(0, segs0[i].data@.len() as int) =~= segs0[i].data@);
        } else {
            assert(segs1[i] == segs0[i]);
            assert(segs1[i].data@.subrange(0, segs0[i].data@.len() as int) =~= segs0[i].data@);
        }
    }
}

/// Re-establishes the index part of the invariant after an overwrite of an
/// existing key.
proof fn lemma_set_index_ok(
    segs0: Seq<Segment>,
    segs1: Seq<Segment>,
    ix0: Seq<(String, CommandPos)>,
    ix1: Seq<(String, CommandPos)>,
    m0: Map<Seq<char>, Seq<char>>,
    m1: Map<Seq<char>, Seq<char>>,
    k: Seq<char>,
    v: Seq<char>,
    newpos: CommandPos,
    i: int,
)
    requires
        segs0.len() >= 1,
        segs1.len() == segs0.len(),
        forall|i2: int| 0 <= i2 < segs1.len() ==> (#[trigger] segs1[i2]).gen == segs0[i2].gen,
        forall|i2: int|
            0 <= i2 < segs0.len() ==> segs0[i2].data@.len() <= (
            #[trigger] segs1[i2]).data@.len() && segs1[i2].data@.subrange(
                0,
                segs0[i2].data@.len() as int,
            ) == segs0[i2].data@,
        forall|a: int, b: int| 0 <= a < b < ix0.len() ==> ix0[a].0@ != ix0[b].0@,
        forall|a: int|
            0 <= a < ix0.len() ==> m0.contains_key((#[trigger] ix0[a]).0@) && entry_ok(
                segs0,
                m0,
                ix0[a].0@,
                ix0[a].1,
            ),
        forall|k2: Seq<char>| m0.contains_key(k2) ==> exists|a: int| key_at(ix0, a, k2),
        0 <= i < ix0.len(),
        ix0[i].0@ == k,
        m1 == m0.insert(k, v),
        ix1.len() == ix0.len(),
        ix1.drop_last() == ix0.remove(i),
        ix1.last().0@ == k,
        ix1.last().1 == newpos,
        newpos.gen == segs1.last().gen,
        newpos.pos == segs0.last().data@.len(),
        newpos.pos + newpos.len <= segs1.last().data@.len(),
        segs1.last().data@.subrange(newpos.pos as int, newpos.pos + newpos.len) == encode_cmd(
            CmdV::Put { key: k, value: v },
        ),
    ensures
        forall|a: int, b: int| 0 <= a < b < ix1.len() ==> ix1[a].0@ != ix1[b].0@,
        forall|a: int|
            0 <= a < ix1.len() ==> m1.contains_key((#[trigger] ix1[a]).0@) && entry_ok(
                segs1,
                m1,
                ix1[a].0@,
                ix1[a].1,
            ),
        forall|k2: Seq<char>| m1.contains_key(k2) ==> exists|a: int| key_at(ix1, a, k2),
{
    let n = ix1.len() as int;
    assert forall|a: int|
        0 <= a < n - 1 implies ix1[a] == (if a < i {
        ix0[a]
    } else {
        ix0[a + 1]
    }) by {
        assert(ix1[a] == ix1.drop_last()[a]);
        assert(ix1.drop_last() == ix0.remove(i));
        if a < i {
            assert(ix0.remove(i)[a] == ix0.subrange(0, i)[a]);
            assert(ix0.subrange(0, i)[a] == ix0[a]);
        } else {
            assert(ix0.remove(i)[a] == ix0.subrange(i + 1, ix0.len() as int)[a - i]);
            assert(ix0.subrange(i + 1, ix0.len() as int)[a - i] == ix0[a + 1]);
        }
    }
    assert forall|a: int, b: int| 0 <= a < b < n implies ix1[a].0@ != ix1[b].0@ by {
        if b == n - 1 {
            let a0 = if a < i {
                a
            } else {
                a + 1
            };
            assert(ix1[a] == ix0[a0]);
            assert(a0 != i);
            if a0 < i {
                assert(ix0[a0].0@ != ix0[i].0@);
            } else {
                assert(ix0[i].0@ != ix0[a0].0@);
            }
        } else {
            let a0 = if a < i {
                a
            } else {
                a + 1
            };
            let b0 = if b < i {
                b
            } else {
                b + 1
            };
            assert(ix1[a] == ix0[a0] && ix1[b] == ix0[b0]);
            assert(a0 < b0);
        }
    }
    assert forall|a: int|
        0 <= a < n implies m1.contains_key((#[trigger] ix1[a]).0@) && entry_ok(
        segs1,
        m1,
        ix1[a].0@,
        ix1[a].1,
    ) by {
        if a == n - 1 {
            assert(m1.contains_key(k) && m1[k] == v);
            let si = segs1.len() - 1;
            assert(entry_at(segs1, m1, k, newpos, si));
        } else {
            let a0 = if a < i {
                a
            } else {
                a + 1
            };
            assert(ix1[a] == ix0[a0]);
            let k2 = ix0[a0].0@;
            assert(a0 != i);
            if a0 < i {
                assert(ix0[a0].0@ != ix0[i].0@);
            } else {
                assert(ix0[i].0@ != ix0[a0].0@);
            }
            assert(k2 != k);
            assert(m1.contains_key(k2) && m1[k2] == m0[k2]);
            lemma_entry_ok_extend(segs0, segs1, m0, m1, k2, ix0[a0].1);
        }
    }
    assert forall|k2: Seq<char>| m1.contains_key(k2) implies exists|a: int|
        key_at(ix1, a, k2) by {
        if k2 == k {
            assert(key_at(ix1, n - 1, k2));
        } else {
            assert(m0.contains_key(k2));
            let a0 = choose|a: int| key_at(ix0, a, k2);
            assert(a0 != i);
            let a1 = if a0 < i {
                a0
            } else {
                a0 - 1
            };
            assert(ix1[a1] == ix0[a0]);
            assert(key_at(ix1, a1, k2));
        }
    }
}

/// Re-establishes the index part of the invariant after a write of a fresh
/// key.
proof fn lemma_set_index_new(
    segs0: Seq<Segment>,
    segs1: Seq<Segment>,
    ix0: Seq<(String, CommandPos)>,
    ix1: Seq<(String, CommandPos)>,
    m0: Map<Seq<char>, Seq<char>>,
    m1: Map<Seq<char>, Seq<char>>,
    k: Seq<char>,
    v: Seq<char>,
    newpos: CommandPos,
)
    requires
        segs0.len() >= 1,
        segs1.len() == segs0.len(),
        forall|i2: int| 0 <= i2 < segs1.len() ==> (#[trigger] segs1[i2]).gen == segs0[i2].gen,
        forall|i2: int|
            0 <= i2 < segs0.len() ==> segs0[i2].data@.len() <= (
            #[trigger] segs1[i2]).data@.len() && segs1[i2].data@.subrange(
                0,
                segs0[i2].data@.len() as int,
            ) == segs0[i2].data@,
        forall|a: int, b: int| 0 <= a < b < ix0.len() ==> ix0[a].0@ != ix0[b].0@,
        forall|a: int|
            0 <= a < ix0.len() ==> m0.contains_key((#[trigger] ix0[a]).0@) && entry_ok(
                segs0,
                m0,
                ix0[a].0@,
                ix0[a].1,
            ),
        forall|k2: Seq<char>| m0.contains_key(k2) ==> exists|a: int| key_at(ix0, a, k2),
        forall|a: int| 0 <= a < ix0.len() ==> ix0[a].0@ != k,
        m1 == m0.insert(k, v),
        ix1.len() == ix0.len() + 1,
        ix1.drop_last() == ix0,
        ix1.last().0@ == k,
        ix1.last().1 == newpos,
        newpos.gen == segs1.last().gen,
        newpos.pos == segs0.last().data@.len(),
        newpos.pos + newpos.len <= segs1.last().data@.len(),
        segs1.last().data@.subrange(newpos.pos as int, newpos.pos + newpos.len) == encode_cmd(
            CmdV::Put { key: k, value: v },
        ),
    ensures
        forall|a: int, b: int| 0 <= a < b < ix1.len() ==> ix1[a].0@ != ix1[b].0@,
        forall|a: int|
            0 <= a < ix1.len() ==> m1.contains_key((#[trigger] ix1[a]).0@) && entry_ok(
                segs1,
                m1,
                ix1[a].0@,
                ix1[a].1,
            ),
        forall|k2: Seq<char>| m1.contains_key(k2) ==> exists|a: int| key_at(ix1, a, k2),
{
    let n = ix1.len() as int;
    assert forall|a: int| 0 <= a < n - 1 implies ix1[a] == ix0[a] by {
        assert(ix1[a] == ix1.drop_last()[a]);
    }
    assert forall|a: int|
        0 <= a < n implies m1.contains_key((#[trigger] ix1[a]).0@) && entry_ok(
        segs1,
        m1,
        ix1[a].0@,
        ix1[a].1,
    ) by {
        if a == n - 1 {
            assert(m1.contains_key(k) && m1[k] == v);
            let si = segs1.len() - 1;
            assert(entry_at(segs1, m1, k, newpos, si));
        } else {
            let k2 = ix0[a].0@;
            assert(k2 != k);
            assert(m1.contains_key(k2) && m1[k2] == m0[k2]);
            lemma_entry_ok_extend(segs0, segs1, m0, m1, k2, ix0[a].1);
        }
    }
    assert forall|k2: Seq<char>| m1.contains_key(k2) implies exists|a: int|
        key_at(ix1, a, k2) by {
        if k2 == k {
            assert(key_at(ix1, n - 1, k2));
        } else {
            assert(m0.contains_key(k2));
            let a0 = choose|a: int| key_at(ix0, a, k2);
            assert(ix1[a0] == ix0[a0]);
            assert(key_at(ix1, a0, k2));
        }
    }
}

/// A valid entry stays valid when a new segment is appended to the log.
proof fn lemma_entry_ok_push_seg(
    segs: Seq<Segment>,
    s: Segment,
    m: Map<Seq<char>, Seq<char>>,
    k: Seq<char>,
    p: CommandPos,
)
    requires
        entry_ok(segs, m, k, p),
    ensures
        entry_ok(segs.push(s), m, k, p),
{
    let si = choose|si: int| entry_at(segs, m, k, p, si);
    assert(segs.push(s)[si] == segs[si]);
    assert(entry_at(segs.push(s), m, k, p, si));
}

impl KvStore {
    /// A fresh, empty store: one empty active segment at generation 1.
    pub fn new() -> (r: KvStore)
        ensures
            r.wf(),
            r@ == Map::<Seq<char>, Seq<char>>::empty(),
            r.spec_uncompacted() == 0,
            r.spec_current_gen() == 1,
    {
        let mut segments: Vec<Segment> = Vec::new();
        segments.push(Segment { gen: 1, data: Vec::new(), hist: Ghost(Seq::<CmdV>::empty()) });
        let r = KvStore {
            segments,
            index: Vec::new(),
            current_gen: 1,
            uncompacted: 0,
            model: Ghost(Map::<Seq<char>, Seq<char>>::empty()),
            dead: Ghost(0),
            shadowed: Ghost(0),
        };
        proof {
            let segs = r.segments@;
            assert(segs.len() == 1);
            assert(segs.drop_last() =~= Seq::<Segment>::empty());
            assert(hists_of(segs.drop_last()) == Seq::<CmdV>::empty());
            assert(hists_of(segs) == hists_of(segs.drop_last()) + segs.last().hist@);
            assert(segs.last().hist@ == Seq::<CmdV>::empty());
            assert(hists_of(segs) =~= Seq::<CmdV>::empty());
            assert(sum_sizes(segs) == sum_sizes(segs.drop_last()) + segs.last().data@.len());
            assert(sum_sizes(segs) == 0);
            assert(r.wf());
        }
        r
    }

    /// Opens a store from the raw contents of the segment files of a
    /// directory, in ascending generation order.
    ///
    /// Each file is replayed up to its longest validly-decoding prefix; the
    /// recovered map is exactly `replay_files`. A fresh active segment is
    /// created after the last recovered generation.
    #[verifier::rlimit(100)]
    pub fn open(files: Vec<SegmentFile>) -> (r: Result<KvStore>)
        requires
            forall|i: int, j: int|
                0 <= i < j < files@.len() ==> files@[i].gen < files@[j].gen,
            files@.len() > 0 ==> files@.last().gen < u64::MAX,
        ensures
            match r {
                Ok(s) => {
                    &&& s.wf()
                    &&& s@ == replay_files(files@)
                    &&& s.spec_uncompacted() as int == sat_cap(shadow_of(file_hists(files@)))
                    &&& s.spec_current_gen() as int == if files@.len() == 0 {
                        1int
                    } else {
                        files@.last().gen as int + 1
                    }
                    &&& s.spec_gens().len() == files@.len() + 1
                    &&& (forall|i: int|
                        0 <= i < files@.len() ==> s.spec_gens()[i] == (
                        #[trigger] files@[i]).gen)
                    &&& s.spec_gens()[files@.len() as int] == s.spec_current_gen()
                },
                Err(_) => false,
            },
    {
        let mut segments: Vec<Segment> = Vec::new();
        let mut index: Vec<(String, CommandPos)> = Vec::new();
        let mut uncompacted: u64 = 0;
        let ghost mut m = Map::<Seq<char>, Seq<char>>::empty();
        let ghost mut dead: int = 0;
        let ghost mut shadowed: int = 0;
        proof {
            assert(segments@ =~= Seq::<Segment>::empty());
            assert(hists_of(segments@) == Seq::<CmdV>::empty());
            assert(file_hists(files@.take(0)) =~= Seq::<CmdV>::empty()) by {
                assert(files@.take(0) =~= Seq::<SegmentFile>::empty());
            }
            assert(state_ok(segments@, index@, m, dead, shadowed, uncompacted));
            assert(files.len() == files@.len());
        }
        let mut fi: usize = 0;
        while fi < files.len()
            invariant
                fi <= files@.len(),
                files@.len() <= usize::MAX,
                forall|i: int, j: int|
                    0 <= i < j < files@.len() ==> files@[i].gen < files@[j].gen,
                segments@.len() == fi,
                forall|j: int|
                    0 <= j < fi ==> (#[trigger] segments@[j]).gen == files@[j].gen,
                state_ok(segments@, index@, m, dead, shadowed, uncompacted),
                shadowed == shadow_of(hists_of(segments@)),
                hists_of(segments@) == file_hists(files@.take(fi as int)),
            decreases files@.len() - fi,
        {
            let ghost segsA = segments@;
            let mut seg = Segment {
                gen: files[fi].gen,
                data: Vec::new(),
                hist: Ghost(Seq::<CmdV>::empty()),
            };
            proof {
                let sv = segsA.push(seg);
                assert(sv.drop_last() =~= segsA);
                assert(hists_of(sv) =~= hists_of(segsA));
                assert(sum_sizes(sv) == sum_sizes(segsA));
                assert forall|a: int|
                    0 <= a < index@.len() implies m.contains_key((#[trigger] index@[a]).0@)
                        && entry_ok(sv, m, index@[a].0@, index@[a].1) by {
                    lemma_entry_ok_push_seg(segsA, seg, m, index@[a].0@, index@[a].1);
                }
                assert(state_ok(sv, index@, m, dead, shadowed, uncompacted));
                assert(shadow_of(hists_of(sv)) == shadow_of(hists_of(segsA)));
                assert(seg.data@ =~= Seq::<char>::empty());
                assert(parse_all(files@[fi as int].data@.skip(0)) == parse_all(
                    files@[fi as int].data@,
                )) by {
                    assert(files@[fi as int].data@.skip(0) =~= files@[fi as int].data@);
                }
            }
            let mut pos: usize = 0;
            loop
                invariant
                    pos <= files@[fi as int].data@.len(),
                    fi < files@.len(),
                    seg.gen == files@[fi as int].gen,
                    segments@ == segsA,
                    state_ok(segments@.push(seg), index@, m, dead, shadowed, uncompacted),
                    shadowed == shadow_of(hists_of(segments@.push(seg))),
                    seg.hist@ + parse_all(files@[fi as int].data@.skip(pos as int))
                        == parse_all(files@[fi as int].data@),
                ensures
                    segments@ == segsA,
                    seg.gen == files@[fi as int].gen,
                    state_ok(segments@.push(seg), index@, m, dead, shadowed, uncompacted),
                    shadowed == shadow_of(hists_of(segments@.push(seg))),
                    seg.hist@ == parse_all(files@[fi as int].data@),
                decreases files@[fi as int].data@.len() - pos,
            {
                let f = &files[fi];
                let decoded = decode_command(&f.data, pos);
                match decoded {
                    None => {
                        proof {
                            assert(parse_all(files@[fi as int].data@.skip(pos as int))
                                =~= Seq::<CmdV>::empty());
                            assert(seg.hist@ + Seq::<CmdV>::empty() =~= seg.hist@);
                        }
                        break ;
                    },
                    Some(cn) => {
                        let (cmd, n) = cn;
                        let ghost segs0v = segments@.push(seg);
                        let ghost ix0 = index@;
                        let ghost m0 = m;
                        let ghost cv = cmd@;
                        let ghost fdata = files@[fi as int].data@;
                        proof {
                            assert(parse_cmd(fdata.skip(pos as int)) == Some((cv, n as int)));
                            assert(fdata.skip(pos as int).len() == fdata.len() - pos);
                            assert(0 < n as int <= fdata.skip(pos as int).len());
                            assert(parse_all(fdata.skip(pos as int)) == seq![cv] + parse_all(
                                fdata.skip(pos as int).skip(n as int),
                            ));
                            assert(fdata.skip(pos as int).skip(n as int) =~= fdata.skip(
                                pos + n,
                            ));
                        }
                        let enc = encode_command(&cmd);
                        let epos = seg.data.len();
                        let elen = enc.len();
                        push_all(&mut seg.data, &enc);
                        proof {
                            lemma_encode_all_push(seg.hist@, cv);
                        }
                        seg.hist = Ghost(seg.hist@.push(cv));
                        let ghost segs1v = segments@.push(seg);
                        let newpos = CommandPos { gen: seg.gen, pos: epos, len: elen };
                        proof {
                            assert(segs1v.drop_last() =~= segs0v.drop_last());
                            assert(segs1v.last().data@ == segs0v.last().data@ + encode_cmd(cv));
                            assert(segs1v.last().hist@ == segs0v.last().hist@.push(cv));
                            lemma_segments_extended(segs0v, segs1v, cv);
                            lemma_apply_cmds_push(
                                Map::<Seq<char>, Seq<char>>::empty(),
                                hists_of(segs0v),
                                cv,
                            );
                            assert(seg.hist@ + parse_all(fdata.skip(pos + n)) =~= parse_all(
                                fdata,
                            ));
                            assert(segs1v.last().data@.subrange(
                                newpos.pos as int,
                                newpos.pos + newpos.len,
                            ) =~= encode_cmd(cv));
                            assert(hists_of(segs1v).drop_last() =~= hists_of(segs0v));
                            assert(hists_of(segs1v).last() == cv);
                            assert(shadow_of(hists_of(segs1v)) == shadow_of(hists_of(segs0v))
                                + match cv {
                                CmdV::Put { key, value } => record_len(m0, key),
                                CmdV::Remove { key } => record_len(m0, key) + encode_cmd(
                                    cv,
                                ).len(),
                            });
                        }
                        match cmd {
                            Command::Put { key, value } => {
                                let ghost k = key@;
                                let ghost v = value@;
                                proof {
                                    assert(cv == (CmdV::Put { key: k, value: v }));
                                    m = m0.insert(k, v);
                                }
                                let found = index_find(&index, &key);
                                match found {
                                    Some(i) => {
                                        let displaced = index[i].1.len;
                                        proof {
                                            lemma_live_len_remove(ix0, i as int);
                                            assert(m0.contains_key(ix0[i as int].0@)
                                                && entry_ok(
                                                segs0v,
                                                m0,
                                                ix0[i as int].0@,
                                                ix0[i as int].1,
                                            ));
                                            let si = choose|si: int|
                                                entry_at(segs0v, m0, k, ix0[i as int].1, si);
                                            assert(segs0v[si].data@.subrange(
                                                ix0[i as int].1.pos as int,
                                                ix0[i as int].1.pos + ix0[i as int].1.len,
                                            ).len() == ix0[i as int].1.len);
                                            assert(displaced as int == record_len(m0, k));
                                        }
                                        index.remove(i);
                                        index.push((key, newpos));
                                        uncompacted = sat_add_u64(
                                            uncompacted,
                                            displaced as u64,
                                        );
                                        proof {
                                            dead = dead + displaced as int;
                                            shadowed = shadowed + displaced as int;
                                            let ix1 = index@;
                                            lemma_live_len_push(
                                                ix0.remove(i as int),
                                                ix1.last(),
                                            );
                                            assert(ix1.drop_last() =~= ix0.remove(i as int));
                                            lemma_set_index_ok(
                                                segs0v, segs1v, ix0, ix1, m0, m, k, v, newpos,
                                                i as int,
                                            );
                                        }
                                    },
                                    None => {
                                        index.push((key, newpos));
                                        proof {
                                            let ix1 = index@;
                                            assert(ix1.drop_last() =~= ix0);
                                            lemma_live_len_push(ix0, ix1.last());
                                            assert(!m0.contains_key(k)) by {
                                                if m0.contains_key(k) {
                                                    let j = choose|j: int| key_at(ix0, j, k);
                                                    assert(!key_at(ix0, j, k));
                                                }
                                            }
                                            assert(record_len(m0, k) == 0);
                                            lemma_set_index_new(
                                                segs0v, segs1v, ix0, ix1, m0, m, k, v, newpos,
                                            );
                                        }
                                    },
                                }
                            },
                            Command::Remove { key } => {
                                let ghost k = key@;
                                proof {
                                    assert(cv == (CmdV::Remove { key: k }));
                                    m = m0.remove(k);
                                }
                                let found = index_find(&index, &key);
                                match found {
                                    Some(i) => {
                                        let displaced = index[i].1.len;
                                        proof {
                                            lemma_live_len_remove(ix0, i as int);
                                            assert(m0.contains_key(ix0[i as int].0@)
                                                && entry_ok(
                                                segs0v,
                                                m0,
                                                ix0[i as int].0@,
                                                ix0[i as int].1,
                                            ));
                                            let si = choose|si: int|
                                                entry_at(segs0v, m0, k, ix0[i as int].1, si);
                                            assert(segs0v[si].data@.subrange(
                                                ix0[i as int].1.pos as int,
                                                ix0[i as int].1.pos + ix0[i as int].1.len,
                                            ).len() == ix0[i as int].1.len);
                                            assert(displaced as int == record_len(m0, k));
                                        }
                                        index.remove(i);
                                        uncompacted = sat_add_u64(
                                            uncompacted,
                                            sat_add_u64(displaced as u64, elen as u64),
                                        );
                                        proof {
                                            dead = dead + displaced as int + elen as int;
                                            shadowed = shadowed + displaced as int
                                                + elen as int;
                                            let ix1 = index@;
                                            lemma_remove_index_ok(
                                                segs0v, segs1v, ix0, ix1, m0, m, k, i as int,
                                            );
                                        }
                                    },
                                    None => {
                                        uncompacted = sat_add_u64(uncompacted, elen as u64);
                                        proof {
                                            dead = dead + elen as int;
                                            shadowed = shadowed + elen as int;
                                            assert(record_len(m0, k) == 0);
                                            assert(!m0.contains_key(k)) by {
                                                if m0.contains_key(k) {
                                                    let j = choose|j: int| key_at(ix0, j, k);
                                                    assert(!key_at(ix0, j, k));
                                                }
                                            }
                                            assert(m =~= m0);
                                            assert(m == m0);
                                            let ix1 = index@;
                                            assert forall|a: int|
                                                0 <= a < ix1.len() implies m.contains_key(
                                                (#[trigger] ix1[a]).0@,
                                            ) && entry_ok(
                                                segs1v,
                                                m,
                                                ix1[a].0@,
                                                ix1[a].1,
                                            ) by {
                                                lemma_entry_ok_extend(
                                                    segs0v,
                                                    segs1v,
                                                    m0,
                                                    m,
                                                    ix1[a].0@,
                                                    ix1[a].1,
                                                );
                                            }
                                        }
                                    },
                                }
                            },
                        }
                        proof {
                            assert(sum_sizes(segs1v) == sum_sizes(segs0v) + elen) by {
                                assert(segs1v.drop_last() =~= segs0v.drop_last());
                            }
                            assert(state_ok(
                                segments@.push(seg),
                                index@,
                                m,
                                dead,
                                shadowed,
                                uncompacted,
                            ));
                            assert(shadowed == shadow_of(hists_of(segments@.push(seg))));
                        }
                        pos = pos + n;
                    },
                }
            }
            let ghost segB = seg;
            segments.push(seg);
            fi = fi + 1;
            proof {
                assert(segments@ == segsA.push(segB));
                assert(segments@.drop_last() =~= segsA);
                assert(segments@.last() == segB);
                assert(hists_of(segments@) == hists_of(segsA) + segB.hist@);
                assert(files@.take(fi as int).drop_last() =~= files@.take(fi - 1));
                assert(files@.take(fi as int).last() == files@[fi - 1]);
                assert(hists_of(segments@) == file_hists(files@.take(fi as int)));
                assert(shadowed == shadow_of(hists_of(segments@)));
            }
        }
        proof {
            assert(files@.take(fi as int) =~= files@);
        }
        let current_gen = if files.len() == 0 {
            1
        } else {
            files[files.len() - 1].gen + 1
        };
        let ghost segsA = segments@;
        let active = Segment {
            gen: current_gen,
            data: Vec::new(),
            hist: Ghost(Seq::<CmdV>::empty()),
        };
        proof {
            let sv = segsA.push(active);
            assert(sv.drop_last() =~= segsA);
            assert(hists_of(sv) =~= hists_of(segsA));
            assert(sum_sizes(sv) == sum_sizes(segsA));
            assert forall|a: int, b: int| 0 <= a < b < sv.len() implies sv[a].gen
                < sv[b].gen by {
                if b == sv.len() - 1 {
                    assert(sv[a] == segsA[a]);
                    assert(segsA[a].gen == files@[a].gen);
                    if a < files@.len() - 1 {
                        assert(files@[a].gen < files@[files@.len() - 1].gen);
                    }
                }
            }
            assert forall|a: int|
                0 <= a < index@.len() implies m.contains_key((#[trigger] index@[a]).0@)
                    && entry_ok(sv, m, index@[a].0@, index@[a].1) by {
                lemma_entry_ok_push_seg(segsA, active, m, index@[a].0@, index@[a].1);
            }
            assert(state_ok(sv, index@, m, dead, shadowed, uncompacted));
            assert(shadow_of(hists_of(sv)) == shadow_of(hists_of(segsA)));
        }
        segments.push(active);
        let store = KvStore {
            segments,
            index,
            current_gen,
            uncompacted,
            model: Ghost(m),
            dead: Ghost(dead),
            shadowed: Ghost(shadowed),
        };
        proof {
            assert(store.wf());
            assert(store@ == replay_files(files@));
            assert(store.spec_uncompacted() as int == sat_cap(
                shadow_of(file_hists(files@)),
            ));
            assert(store.segments@ == segsA.push(active));
            assert(store.spec_gens().len() == files@.len() + 1);
            assert forall|i: int|
                0 <= i < files@.len() implies store.spec_gens()[i] == (
            #[trigger] files@[i]).gen by {
                assert(store.segments@[i] == segsA[i]);
            }
            assert(store.spec_gens()[files@.len() as int] == current_gen);
        }
        Ok(store)
    }

    /// The running count of shadowed bytes.
    pub fn uncompacted_bytes(&self) -> (r: u64)
        ensures
            r == self.spec_uncompacted(),
    {
        self.uncompacted
    }

    /// The generation of the active segment.
    pub fn current_generation(&self) -> (r: u64)
        ensures
            r == self.spec_current_gen(),
    {
        self.current_gen
    }

    /// The total character count of the segment log, saturating at `u64::MAX`.
    pub fn disk_size(&self) -> (r: u64)
        requires
            self.wf(),
        ensures
            r as int <= self.spec_disk_size(),
            self.spec_disk_size() <= u64::MAX ==> r as int == self.spec_disk_size(),
    {
        let mut total: u64 = 0;
        let mut i: usize = 0;
        proof {
            assert(self.segments@.take(0) =~= Seq::<Segment>::empty());
        }
        while i < self.segments.len()
            invariant
                self.wf(),
                i <= self.segments@.len(),
                total as int <= sum_sizes(self.segments@.take(i as int)),
                sum_sizes(self.segments@.take(i as int)) <= u64::MAX ==> total as int
                    == sum_sizes(self.segments@.take(i as int)),
            decreases self.segments@.len() - i,
        {
            let ghost pre = self.segments@.take(i as int);
            let n = self.segments[i].data.len();
            total = sat_add_u64(total, n as u64);
            i = i + 1;
            proof {
                let cur = self.segments@.take(i as int);
                assert(cur.drop_last() =~= pre);
                assert(cur.last() == self.segments@[i - 1]);
                assert(sum_sizes(cur) == sum_sizes(pre) + n as int);
            }
        }
        proof {
            assert(self.segments@.take(self.segments@.len() as int) =~= self.segments@);
            lemma_sum_sizes_nonneg(self.segments@);
        }
        total
    }

    /// A copy of the segment log, as the raw file contents to persist.
    pub fn snapshot(&self) -> (r: Vec<SegmentFile>)
        ensures
            self.matches_snapshot(r@),
    {
        let mut r: Vec<SegmentFile> = Vec::new();
        let mut i: usize = 0;
        while i < self.segments.len()
            invariant
                i <= self.segments@.len(),
                r@.len() == i,
                forall|j: int|
                    0 <= j < i ==> (#[trigger] r@[j]).gen == self.segments@[j].gen
                        && r@[j].data@ == self.segments@[j].data@,
            decreases self.segments@.len() - i,
        {
            let seg = &self.segments[i];
            let mut data: Vec<char> = Vec::new();
            let n = seg.data.len();
            push_range(&mut data, &seg.data, 0, n);
            proof {
                assert(data@ =~= seg.data@);
            }
            r.push(SegmentFile { gen: seg.gen, data });
            i = i + 1;
        }
        r
    }
}

/// The log never has negative size.
proof fn lemma_sum_sizes_nonneg(segs: Seq<Segment>)
    ensures
        sum_sizes(segs) >= 0,
    decreases segs.len(),
{
    if segs.len() > 0 {
        lemma_sum_sizes_nonneg(segs.drop_last());
    }
}

/// Raw files equal to a store's segment log recover the same records.
proof fn lemma_file_hists_match(segs: Seq<Segment>, files: Seq<SegmentFile>)
    requires
        files.len() == segs.len(),
        forall|i: int| 0 <= i < segs.len() ==> (#[trigger] files[i]).data@ == segs[i].data@,
        forall|i: int|
            0 <= i < segs.len() ==> (#[trigger] segs[i]).data@ == encode_all(segs[i].hist@),
    ensures
        file_hists(files) == hists_of(segs),
    decreases segs.len(),
{
    if segs.len() > 0 {
        assert(forall|i: int|
            0 <= i < segs.drop_last().len() ==> #[trigger] segs.drop_last()[i] == segs[i]);
        assert(forall|i: int|
            0 <= i < files.drop_last().len() ==> #[trigger] files.drop_last()[i] == files[i]);
        lemma_file_hists_match(segs.drop_last(), files.drop_last());
        crate::record::lemma_parse_all_encode_all(segs.last().hist@);
        assert(files.last().data@ == encode_all(segs.last().hist@));
        assert(parse_all(files.last().data@) == segs.last().hist@);
    }
}

/// Durability across restart: replaying a snapshot of a well-formed store
/// recovers exactly its key/value map, so a reopened store answers every
/// lookup as the store did before it was dropped.
pub proof fn lemma_durability(s: &KvStore, files: Seq<SegmentFile>)
    requires
        s.wf(),
        s.matches_snapshot(files),
    ensures
        replay_files(files) == s@,
{
    lemma_file_hists_match(s.segments@, files);
}

/// Space accounting: the live records always fit inside the log, so right
/// after a compaction — when the log holds exactly the live records — the
/// log can only have shrunk.
pub proof fn lemma_live_fits_disk(s: &KvStore)
    requires
        s.wf(),
    ensures
        s.spec_live_size() <= s.spec_disk_size(),
{
}

/// Space bound: while the shadowed-byte counter is not saturated, the log
/// holds at most the live records plus twice that count, since every dead
/// byte is a displaced record the counter charged or a tombstone no longer
/// than one.
pub proof fn lemma_space_bound(s: &KvStore)
    requires
        s.wf(),
        s.spec_uncompacted() < u64::MAX,
    ensures
        s.spec_disk_size() <= s.spec_live_size() + 2 * (s.spec_uncompacted() as int),
{
}

/// A well-formed store's snapshot satisfies what `open` asks of a directory,
/// as long as a generation is left to allocate.
pub proof fn lemma_snapshot_reopens(s: &KvStore, files: Seq<SegmentFile>)
    requires
        s.wf(),
        s.matches_snapshot(files),
        s.spec_current_gen() < u64::MAX,
    ensures
        forall|i: int, j: int| 0 <= i < j < files.len() ==> files[i].gen < files[j].gen,
        files.len() > 0 ==> files.last().gen < u64::MAX,
{
    assert forall|i: int, j: int| 0 <= i < j < files.len() implies files[i].gen
        < files[j].gen by {
        assert(files[i].gen == s.segments@[i].gen);
        assert(files[j].gen == s.segments@[j].gen);
    }
    if files.len() > 0 {
        assert(files.last().gen == s.segments@.last().gen);
    }
}

/// Point read after write: writing `v` under `k` makes `k` read back as `v`.
///
/// `set` ensures the map becomes `old@.insert(k, v)`; `get` ensures it
/// returns the map's value under `k`; this law closes the chain.
pub proof fn lemma_read_after_write(m: Map<Seq<char>, Seq<char>>, k: Seq<char>, v: Seq<char>)
    ensures
        m.insert(k, v).contains_key(k),
        m.insert(k, v)[k] == v,
{
}

/// Overwrite: the second write under the same key wins.
pub proof fn lemma_overwrite(
    m: Map<Seq<char>, Seq<char>>,
    k: Seq<char>,
    v1: Seq<char>,
    v2: Seq<char>,
)
    ensures
        m.insert(k, v1).insert(k, v2).contains_key(k),
        m.insert(k, v1).insert(k, v2)[k] == v2,
{
}

/// Remove then get: a removed key reads back as absent.
pub proof fn lemma_remove_then_get(m: Map<Seq<char>, Seq<char>>, k: Seq<char>, v: Seq<char>)
    ensures
        !m.insert(k, v).remove(k).contains_key(k),
{
}

} // verus!

