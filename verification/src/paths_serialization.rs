//! The `.paths` format: every path as a record of its length, four bytes little-endian, followed
//! by its bytes, the records one after another. Compressing the record stream, and reading and
//! writing it, is left to the caller.
use vstd::prelude::*;
use crate::pathmap::PathMap;
use crate::trie::{diverges, path_before, sorted_paths};
use crate::zipper::{grafted, WriteZipper};
use crate::zipper_moving::{ZipperMoving, ZipperSubtries};

verus! {

/// The four little-endian bytes of `n`.
pub open spec fn le_u32_bytes(n: u32) -> Seq<u8> {
    seq![n as u8, (n >> 8u32) as u8, (n >> 16u32) as u8, (n >> 24u32) as u8]
}

/// The number whose little-endian bytes are `b0`, `b1`, `b2` and `b3`.
pub open spec fn le_u32_value(b0: u8, b1: u8, b2: u8, b3: u8) -> u32 {
    (b0 as u32) | ((b1 as u32) << 8u32) | ((b2 as u32) << 16u32) | ((b3 as u32) << 24u32)
}

/// The length that the first four bytes of `s` give.
pub open spec fn record_len(s: Seq<u8>) -> nat
    recommends
        s.len() >= 4,
{
    le_u32_value(s[0], s[1], s[2], s[3]) as nat
}

/// The record of one path: its length, then its bytes.
pub open spec fn path_record(p: Seq<u8>) -> Seq<u8> {
    le_u32_bytes(p.len() as u32) + p
}

/// The records of several paths, one after another.
pub open spec fn path_records(ps: Seq<Seq<u8>>) -> Seq<u8>
    decreases ps.len(),
{
    if ps.len() == 0 {
        Seq::empty()
    } else {
        path_record(ps[0]) + path_records(ps.drop_first())
    }
}

/// Whether every path of `ps` is short enough for its length to fit in a record.
pub open spec fn framable(ps: Seq<Seq<u8>>) -> bool {
    forall|k: int| 0 <= k < ps.len() ==> #[trigger] ps[k].len() <= u32::MAX
}

/// The paths of the whole records at the start of `s`, and the bytes after the last of them.
pub open spec fn parse_records(s: Seq<u8>) -> (Seq<Seq<u8>>, Seq<u8>)
    decreases s.len(),
{
    if s.len() < 4 || s.len() < 4 + record_len(s) {
        (Seq::empty(), s)
    } else {
        let l = record_len(s);
        let rest = parse_records(s.skip(4 + l as int));
        (seq![s.subrange(4, 4 + l as int)] + rest.0, rest.1)
    }
}

/// Whether `s` holds no whole record: it is the start of one.
pub open spec fn incomplete(s: Seq<u8>) -> bool {
    s.len() < 4 || s.len() < 4 + record_len(s)
}

/// Reading a length back from its bytes gives the length.
pub proof fn lemma_le_u32_round_trip(n: u32)
    ensures
        le_u32_value(n as u8, (n >> 8u32) as u8, (n >> 16u32) as u8, (n >> 24u32) as u8) == n,
{
    assert(((n as u8) as u32) | ((((n >> 8u32) as u8) as u32) << 8u32) | ((((n >> 16u32) as u8) as u32) << 16u32)
        | ((((n >> 24u32) as u8) as u32) << 24u32) == n) by (bit_vector);
}

/// The bytes of a length read from four bytes are those bytes.
pub proof fn lemma_le_u32_bytes_of_value(b0: u8, b1: u8, b2: u8, b3: u8)
    ensures
        le_u32_bytes(le_u32_value(b0, b1, b2, b3)) == seq![b0, b1, b2, b3],
{
    let n = le_u32_value(b0, b1, b2, b3);
    assert(((b0 as u32) | ((b1 as u32) << 8u32) | ((b2 as u32) << 16u32) | ((b3 as u32) << 24u32)) as u8 == b0)
        by (bit_vector);
    assert((((b0 as u32) | ((b1 as u32) << 8u32) | ((b2 as u32) << 16u32) | ((b3 as u32) << 24u32)) >> 8u32) as u8 == b1)
        by (bit_vector);
    assert((((b0 as u32) | ((b1 as u32) << 8u32) | ((b2 as u32) << 16u32) | ((b3 as u32) << 24u32)) >> 16u32) as u8 == b2)
        by (bit_vector);
    assert((((b0 as u32) | ((b1 as u32) << 8u32) | ((b2 as u32) << 16u32) | ((b3 as u32) << 24u32)) >> 24u32) as u8 == b3)
        by (bit_vector);
    assert(le_u32_bytes(n) =~= seq![b0, b1, b2, b3]);
}

/// A record is read back as the path it holds, whatever follows it.
proof fn lemma_parse_record(p: Seq<u8>, t: Seq<u8>)
    requires
        p.len() <= u32::MAX,
    ensures
        parse_records(path_record(p) + t) == (seq![p] + parse_records(t).0, parse_records(t).1),
{
    let s = path_record(p) + t;
    let n = p.len() as u32;
    lemma_le_u32_round_trip(n);
    assert(s[0] == n as u8 && s[1] == (n >> 8u32) as u8 && s[2] == (n >> 16u32) as u8 && s[3] == (n >> 24u32) as u8);
    assert(record_len(s) == p.len());
    assert(s.subrange(4, 4 + p.len() as int) =~= p);
    assert(s.skip(4 + p.len() as int) =~= t);
}

/// Records followed by more bytes are read back as their paths, then as what the bytes hold.
pub proof fn lemma_parse_records(ps: Seq<Seq<u8>>, t: Seq<u8>)
    requires
        framable(ps),
    ensures
        parse_records(path_records(ps) + t) == (ps + parse_records(t).0, parse_records(t).1),
    decreases ps.len(),
{
    if ps.len() == 0 {
        assert(path_records(ps) + t =~= t);
        assert(ps + parse_records(t).0 =~= parse_records(t).0);
    } else {
        let rest = ps.drop_first();
        assert(framable(rest)) by {
            assert forall|k: int| 0 <= k < rest.len() implies #[trigger] rest[k].len() <= u32::MAX by {
                assert(rest[k] == ps[k + 1]);
            }
        }
        assert(ps[0].len() <= u32::MAX);
        lemma_parse_records(rest, t);
        assert(path_records(ps) + t =~= path_record(ps[0]) + (path_records(rest) + t));
        lemma_parse_record(ps[0], path_records(rest) + t);
        assert(seq![ps[0]] + (rest + parse_records(t).0) =~= ps + parse_records(t).0);
    }
}

/// Whatever is read from `s` is what it is made of: the records of the paths read, then the
/// bytes left, which hold no whole record.
pub proof fn lemma_parse_decompose(s: Seq<u8>)
    ensures
        s == path_records(parse_records(s).0) + parse_records(s).1,
        framable(parse_records(s).0),
        incomplete(parse_records(s).1),
    decreases s.len(),
{
    if s.len() < 4 || s.len() < 4 + record_len(s) {
        assert(path_records(Seq::<Seq<u8>>::empty()) + s =~= s);
    } else {
        let l = record_len(s);
        let p = s.subrange(4, 4 + l as int);
        let rest = s.skip(4 + l as int);
        lemma_parse_decompose(rest);
        let ps = parse_records(s).0;
        assert(ps == seq![p] + parse_records(rest).0);
        assert(ps.drop_first() =~= parse_records(rest).0);
        assert(ps[0] == p);
        lemma_le_u32_bytes_of_value(s[0], s[1], s[2], s[3]);
        assert(p.len() == l);
        assert(le_u32_bytes(p.len() as u32) =~= s.take(4));
        assert(s =~= path_record(p) + rest);
        assert(framable(ps)) by {
            assert forall|k: int| 0 <= k < ps.len() implies #[trigger] ps[k].len() <= u32::MAX by {
                if k > 0 {
                    assert(ps[k] == parse_records(rest).0[k - 1]);
                }
            }
        }
    }
}


/// The records of `ps` followed by one more record are the records of `ps` with the path
/// appended.
pub proof fn lemma_path_records_push(ps: Seq<Seq<u8>>, p: Seq<u8>)
    ensures
        path_records(ps.push(p)) == path_records(ps) + path_record(p),
    decreases ps.len(),
{
    if ps.len() == 0 {
        assert(ps.push(p).drop_first() =~= Seq::<Seq<u8>>::empty());
        assert(ps.push(p)[0] == p);
        assert(path_records(ps.push(p)) == path_record(p) + path_records(Seq::<Seq<u8>>::empty()));
        assert(path_records(ps.push(p)) =~= path_records(ps) + path_record(p));
    } else {
        lemma_path_records_push(ps.drop_first(), p);
        assert(ps.push(p).drop_first() =~= ps.drop_first().push(p));
        assert(ps.push(p)[0] == ps[0]);
        assert(path_records(ps.push(p)) == path_record(ps[0]) + path_records(ps.drop_first().push(p)));
        assert(path_records(ps.push(p)) =~= path_records(ps) + path_record(p));
    }
}

/// The records of two lists of paths, one after the other, are the records of the joined list.
pub proof fn lemma_path_records_concat(ps: Seq<Seq<u8>>, qs: Seq<Seq<u8>>)
    ensures
        path_records(ps + qs) == path_records(ps) + path_records(qs),
    decreases ps.len(),
{
    if ps.len() == 0 {
        assert(ps + qs =~= qs);
        assert(path_records(ps) + path_records(qs) =~= path_records(qs));
    } else {
        lemma_path_records_concat(ps.drop_first(), qs);
        assert((ps + qs).drop_first() =~= ps.drop_first() + qs);
        assert((ps + qs)[0] == ps[0]);
        assert(path_records(ps + qs) =~= path_records(ps) + path_records(qs));
    }
}

/// The record of the paths in a stream written whole reads back as those paths, with nothing
/// left over.
pub proof fn law_records_round_trip(ps: Seq<Seq<u8>>)
    requires
        framable(ps),
    ensures
        parse_records(path_records(ps)) == (ps, Seq::<u8>::empty()),
{
    lemma_parse_records(ps, Seq::empty());
    assert(path_records(ps) + Seq::<u8>::empty() =~= path_records(ps));
    assert(ps + Seq::<Seq<u8>>::empty() =~= ps);
}

/// Reading a stream in two pieces, the second after what the first left over, reads the same
/// paths as reading it whole: where a stream is cut does not matter.
pub proof fn law_parse_in_pieces(a: Seq<u8>, b: Seq<u8>)
    ensures
        parse_records(a + b) == (parse_records(a).0 + parse_records(parse_records(a).1 + b).0, parse_records(
            parse_records(a).1 + b,
        ).1),
{
    lemma_parse_decompose(a);
    let ps = parse_records(a).0;
    let left = parse_records(a).1;
    assert(a + b =~= path_records(ps) + (left + b));
    lemma_parse_records(ps, left + b);
}

/// Bytes read as records then pending bytes, extended by a piece read as more records then
/// other pending bytes, are read as all those records then the new pending bytes.
proof fn lemma_records_extend(
    consumed: Seq<u8>,
    piece: Seq<u8>,
    before: Seq<Seq<u8>>,
    added: Seq<Seq<u8>>,
    pend1: Seq<u8>,
    pend2: Seq<u8>,
)
    requires
        consumed == path_records(before) + pend1,
        pend1 + piece == path_records(added) + pend2,
        framable(before),
        framable(added),
    ensures
        consumed + piece == path_records(before + added) + pend2,
        framable(before + added),
{
    lemma_path_records_concat(before, added);
    assert(consumed + piece =~= path_records(before) + (pend1 + piece));
    assert(path_records(before) + (path_records(added) + pend2) =~= path_records(before + added) + pend2);
    assert forall|k: int| 0 <= k < (before + added).len() implies #[trigger] (before + added)[k].len() <= u32::MAX by {
        if k < before.len() {
            assert((before + added)[k] == before[k]);
        } else {
            assert((before + added)[k] == added[k - before.len()]);
        }
    }
}

/// Records followed by bytes holding no whole record are read back as just those records.
proof fn lemma_records_then_incomplete(ps: Seq<Seq<u8>>, rest: Seq<u8>)
    requires
        framable(ps),
        incomplete(rest),
    ensures
        parse_records(path_records(ps) + rest) == (ps, rest),
{
    lemma_parse_records(ps, rest);
    assert(parse_records(rest) == (Seq::<Seq<u8>>::empty(), rest));
    assert(ps + Seq::<Seq<u8>>::empty() =~= ps);
}

/// The paths held by `v`, as byte sequences.
pub open spec fn path_views(v: Seq<Vec<u8>>) -> Seq<Seq<u8>> {
    v.map_values(|p: Vec<u8>| p@)
}

/// The views of a list of paths split where the list is split.
proof fn lemma_views_split(v: Seq<Vec<u8>>, n: int)
    requires
        0 <= n <= v.len(),
    ensures
        path_views(v) == path_views(v.take(n)) + path_views(v.skip(n)),
{
    assert(path_views(v) =~= path_views(v.take(n)) + path_views(v.skip(n)));
}

/// Before any byte of a chunk is read, nothing is decoded from it.
proof fn lemma_feed_start(start: Seq<u8>, chunk: Seq<u8>, out0: Seq<Seq<u8>>)
    ensures
        out0 == out0 + Seq::<Seq<u8>>::empty(),
        start + chunk.take(0) == path_records(Seq::<Seq<u8>>::empty()) + start,
        framable(Seq::<Seq<u8>>::empty()),
{
    assert(out0 =~= out0 + Seq::<Seq<u8>>::empty());
    assert(start + chunk.take(0) =~= path_records(Seq::<Seq<u8>>::empty()) + start);
}

/// One step of decoding keeps the decoded paths and the pending bytes in line with what was read.
proof fn lemma_feed_step(
    start: Seq<u8>,
    chunk: Seq<u8>,
    pos: int,
    next: int,
    out0: Seq<Seq<u8>>,
    ps: Seq<Seq<u8>>,
    added: Seq<Seq<u8>>,
    pend1: Seq<u8>,
    pend2: Seq<u8>,
)
    requires
        0 <= pos < next <= chunk.len(),
        start + chunk.take(pos) == path_records(ps) + pend1,
        pend1 + chunk.subrange(pos, next) == path_records(added) + pend2,
        framable(ps),
        framable(added),
    ensures
        start + chunk.take(next) == path_records(ps + added) + pend2,
        framable(ps + added),
        (out0 + ps) + added == out0 + (ps + added),
{
    let piece = chunk.subrange(pos, next);
    assert(chunk.take(next) =~= chunk.take(pos) + piece);
    assert(start + chunk.take(next) =~= (start + chunk.take(pos)) + piece);
    lemma_records_extend(start + chunk.take(pos), piece, ps, added, pend1, pend2);
    assert((out0 + ps) + added =~= out0 + (ps + added));
}

/// Once a whole chunk is read, the decoded paths are those the bytes read hold, and the
/// pending bytes are what they leave over.
proof fn lemma_feed_end(start: Seq<u8>, chunk: Seq<u8>, out0: Seq<Seq<u8>>, ps: Seq<Seq<u8>>, pend: Seq<u8>)
    requires
        start + chunk.take(chunk.len() as int) == path_records(ps) + pend,
        framable(ps),
        incomplete(pend),
    ensures
        parse_records(start + chunk) == (ps, pend),
{
    assert(chunk.take(chunk.len() as int) =~= chunk);
    lemma_records_then_incomplete(ps, pend);
}

/// Appends the record of `path` to `out`
pub fn write_path_record(out: &mut Vec<u8>, path: &[u8])
    requires
        path@.len() <= u32::MAX,
    ensures
        final(out)@ == old(out)@ + path_record(path@),
{
    let n = path.len() as u32;
    out.push(n as u8);
    out.push((n >> 8u32) as u8);
    out.push((n >> 16u32) as u8);
    out.push((n >> 24u32) as u8);
    let ghost head = out@;
    let mut i: usize = 0;
    while i < path.len()
        invariant
            i <= path@.len(),
            out@ == head + path@.take(i as int),
        decreases path@.len() - i,
    {
        out.push(path[i]);
        proof {
            assert(path@.take(i + 1) =~= path@.take(i as int).push(path@[i as int]));
        }
        i = i + 1;
    }
    proof {
        assert(path@.take(path@.len() as int) =~= path@);
        assert(head =~= old(out)@ + le_u32_bytes(n));
    }
}

/// Reads the paths of a record stream that arrives in pieces: the bytes of the record begun and
/// not yet finished are kept from one piece to the next.
pub struct PathsDecoder {
    pub header: Vec<u8>,
    pub path: Vec<u8>,
}

impl PathsDecoder {
    /// The bytes of the unfinished record.
    pub open spec fn pending(self) -> Seq<u8> {
        self.header@ + self.path@
    }

    /// The decoder's invariant: the length is read before the path, and the record is
    /// unfinished.
    pub open spec fn dinv(self) -> bool {
        &&& self.header@.len() <= 4
        &&& self.header@.len() < 4 ==> self.path@.len() == 0
        &&& incomplete(self.pending())
    }

    /// A decoder at the start of a stream
    pub fn new() -> (r: PathsDecoder)
        ensures
            r.dinv(),
            r.pending() == Seq::<u8>::empty(),
    {
        let r = PathsDecoder { header: Vec::new(), path: Vec::new() };
        proof {
            assert(r.pending() =~= Seq::<u8>::empty());
        }
        r
    }

    /// Whether the stream read so far ends between two records
    pub fn at_boundary(&self) -> (r: bool)
        requires
            self.dinv(),
        ensures
            r == (self.pending().len() == 0),
    {
        self.header.len() == 0
    }

    /// The length the read header gives
    fn header_len(&self) -> (r: usize)
        requires
            self.header@.len() == 4,
        ensures
            r == record_len(self.pending()),
    {
        let v: u32 = (self.header[0] as u32) | ((self.header[1] as u32) << 8u32) | ((self.header[2] as u32) << 16u32)
            | ((self.header[3] as u32) << 24u32);
        proof {
            let pd = self.pending();
            assert(pd[0] == self.header@[0] && pd[1] == self.header@[1] && pd[2] == self.header@[2] && pd[3] == self.header@[3]);
        }
        v as usize
    }

    /// Reads the stream from `chunk[pos]` on, up to the end of the chunk, the end of the
    /// record's length, or the end of the record's path, whichever comes first; appends the
    /// path of the record it finishes, if any, to `out`, and returns where it stopped
    fn step(&mut self, chunk: &[u8], pos: usize, out: &mut Vec<Vec<u8>>) -> (next: usize)
        requires
            old(self).dinv(),
            pos < chunk@.len(),
        ensures
            final(self).dinv(),
            pos < next <= chunk@.len(),
            final(out)@.len() >= old(out)@.len(),
            final(out)@.take(old(out)@.len() as int) == old(out)@,
            framable(path_views(final(out)@.skip(old(out)@.len() as int))),
            old(self).pending() + chunk@.subrange(pos as int, next as int) == path_records(
                path_views(final(out)@.skip(old(out)@.len() as int)),
            ) + final(self).pending(),
    {
        let ghost pend0 = self.pending();
        let ghost out0 = out@;
        if self.header.len() < 4 {
            self.header.push(chunk[pos]);
            proof {
                assert(chunk@.subrange(pos as int, pos + 1) =~= seq![chunk@[pos as int]]);
                assert(self.pending() =~= pend0 + chunk@.subrange(pos as int, pos + 1));
            }
            if self.header.len() == 4 && self.header_len() == 0 {
                let ghost h = self.header@;
                out.push(Vec::new());
                self.header.clear();
                proof {
                    let e = Seq::<u8>::empty();
                    lemma_le_u32_bytes_of_value(h[0], h[1], h[2], h[3]);
                    assert(h =~= seq![h[0], h[1], h[2], h[3]]);
                    assert(path_record(e) =~= h);
                    assert(path_views(out@.skip(out0.len() as int)) =~= seq![e]);
                    assert(path_records(seq![e]) =~= path_record(e) + path_records(seq![e].drop_first()));
                    assert(path_records(seq![e]) =~= h);
                    assert(out@.take(out0.len() as int) =~= out0);
                    assert(self.pending() =~= Seq::<u8>::empty());
                    assert(framable(seq![e]));
                }
            } else {
                proof {
                    assert(out@.skip(out0.len() as int) =~= Seq::<Vec<u8>>::empty());
                    assert(path_views(out@.skip(out0.len() as int)) =~= Seq::<Seq<u8>>::empty());
                    assert(out@.take(out0.len() as int) =~= out0);
                }
            }
            pos + 1
        } else {
            let need = self.header_len() - self.path.len();
            let avail = chunk.len() - pos;
            let take = if need < avail {
                need
            } else {
                avail
            };
            let ghost path0 = self.path@;
            let ghost h0 = self.header@;
            let end = pos + take;
            let mut i: usize = 0;
            while i < take
                invariant
                    i <= take,
                    end == pos + take,
                    end <= chunk@.len(),
                    self.header@ == h0,
                    self.path@ == path0 + chunk@.subrange(pos as int, pos + i),
                decreases take - i,
            {
                self.path.push(chunk[pos + i]);
                proof {
                    assert(chunk@.subrange(pos as int, pos + i + 1) =~= chunk@.subrange(pos as int, pos + i).push(
                        chunk@[pos + i],
                    ));
                }
                i = i + 1;
            }
            let ghost h = self.header@;
            let next = end;
            proof {
                assert(self.pending() =~= pend0 + chunk@.subrange(pos as int, next as int));
            }
            if self.path.len() == self.header_len() {
                let mut done: Vec<u8> = Vec::new();
                std::mem::swap(&mut done, &mut self.path);
                out.push(done);
                self.header.clear();
                proof {
                    let p = done@;
                    lemma_le_u32_bytes_of_value(h[0], h[1], h[2], h[3]);
                    assert(h =~= seq![h[0], h[1], h[2], h[3]]);
                    assert(path_record(p) =~= h + p);
                    assert(path_views(out@.skip(out0.len() as int)) =~= seq![p]);
                    assert(path_records(seq![p]) =~= path_record(p) + path_records(seq![p].drop_first()));
                    assert(path_records(seq![p]) =~= h + p);
                    assert(out@.take(out0.len() as int) =~= out0);
                    assert(self.pending() =~= Seq::<u8>::empty());
                    assert(framable(seq![p]));
                }
            } else {
                proof {
                    assert(out@.skip(out0.len() as int) =~= Seq::<Vec<u8>>::empty());
                    assert(path_views(out@.skip(out0.len() as int)) =~= Seq::<Seq<u8>>::empty());
                    assert(out@.take(out0.len() as int) =~= out0);
                }
            }
            next
        }
    }

    /// Reads `chunk`, the next piece of the stream, appending to `out` the path of each record
    /// it finishes
    pub fn feed(&mut self, chunk: &[u8], out: &mut Vec<Vec<u8>>)
        requires
            old(self).dinv(),
        ensures
            final(self).dinv(),
            path_views(final(out)@) == path_views(old(out)@) + parse_records(old(self).pending() + chunk@).0,
            final(self).pending() == parse_records(old(self).pending() + chunk@).1,
    {
        let ghost start = old(self).pending();
        let ghost out0 = out@;
        let ghost mut ps: Seq<Seq<u8>> = Seq::empty();
        let mut pos: usize = 0;
        proof {
            lemma_feed_start(start, chunk@, path_views(out0));
        }
        while pos < chunk.len()
            invariant
                pos <= chunk@.len(),
                self.dinv(),
                path_views(out@) == path_views(out0) + ps,
                start + chunk@.take(pos as int) == path_records(ps) + self.pending(),
                framable(ps),
            decreases chunk@.len() - pos,
        {
            let ghost out1 = out@;
            let ghost pend1 = self.pending();
            let next = self.step(chunk, pos, out);
            proof {
                let added = path_views(out@.skip(out1.len() as int));
                lemma_views_split(out@, out1.len() as int);
                lemma_feed_step(start, chunk@, pos as int, next as int, path_views(out0), ps, added, pend1, self.pending());
                ps = ps + added;
            }
            pos = next;
        }
        proof {
            lemma_feed_end(start, chunk@, path_views(out0), ps, self.pending());
        }
    }
}


/// Whether `ps` lists, in depth-first order, the paths of the space of `z` that lead to a value
/// and come after the focus in that order: the positions that moving from the focus to the next
/// value, again and again, visits one after another, each as a path from the zipper's root.
pub open spec fn lists_paths_after<Z: ZipperMoving>(z: Z, ps: Seq<Seq<u8>>) -> bool {
    &&& forall|k: int| 0 <= k < ps.len() ==> path_before(z.spath(), #[trigger] ps[k]) && z.sget(ps[k]) is Some
    &&& forall|q: Seq<u8>| path_before(z.spath(), q) && #[trigger] z.sget(q) is Some ==> exists|k: int|
        0 <= k < ps.len() && #[trigger] ps[k] == q
    &&& forall|i: int, j: int| #![trigger ps[i], ps[j]] 0 <= i < j < ps.len() ==> path_before(ps[i], ps[j])
}

/// Whether `a` comes before `b` in depth-first order
fn comes_before(a: &[u8], b: &[u8]) -> (r: bool)
    ensures
        r == path_before(a@, b@),
{
    let mut i: usize = 0;
    while i < a.len() && i < b.len() && a[i] == b[i]
        invariant
            i <= a@.len(),
            i <= b@.len(),
            a@.take(i as int) == b@.take(i as int),
        decreases a@.len() - i,
    {
        proof {
            assert(a@.take(i + 1) =~= a@.take(i as int).push(a@[i as int]));
            assert(b@.take(i + 1) =~= b@.take(i as int).push(b@[i as int]));
        }
        i = i + 1;
    }
    if i < a.len() && i < b.len() {
        proof {
            assert(!a@.is_prefix_of(b@)) by {
                if a@.is_prefix_of(b@) {
                    assert(a@[i as int] == b@[i as int]);
                }
            }
            if a[i as int] < b[i as int] {
                assert(diverges(a@, b@, i as int));
            } else {
                assert forall|j: int| !#[trigger] diverges(a@, b@, j) by {
                    if diverges(a@, b@, j) {
                        if j < i {
                            assert(a@.take(i as int)[j] == b@.take(i as int)[j]);
                        } else if j > i {
                            assert(a@.take(j)[i as int] == b@.take(j)[i as int]);
                        }
                    }
                }
            }
        }
        a[i] < b[i]
    } else {
        proof {
            assert forall|j: int| !#[trigger] diverges(a@, b@, j) by {
                if diverges(a@, b@, j) {
                    assert(a@.take(i as int)[j] == b@.take(i as int)[j]);
                }
            }
            if a@.len() < b@.len() {
                assert(a@.is_prefix_of(b@)) by {
                    assert forall|k: int| 0 <= k < a@.len() implies a@[k] == b@[k] by {
                        assert(a@.take(i as int)[k] == b@.take(i as int)[k]);
                    }
                }
            }
        }
        a.len() < b.len()
    }
}

/// The records of the paths of the space of `rz` that lead to a value and come after its focus,
/// in depth-first order, each path from the zipper's root, with the value of each path in the
/// same order; `None` where one of those paths is too long for its length to fit in a record
pub fn serialize_paths_with_auxdata<V: Copy, Z: ZipperSubtries<V>>(rz: &Z) -> (r: Option<(Vec<u8>, Vec<V>)>)
    requires
        rz.zinv(),
    ensures
        r matches Some(res) ==> exists|ps: Seq<Seq<u8>>| #![trigger path_records(ps)] lists_paths_after(*rz, ps)
            && framable(ps) && res.0@ == path_records(ps) && res.1@.len() == ps.len() && forall|k: int| 0 <= k
            < ps.len() ==> rz.sget(#[trigger] ps[k]) == Some(res.1@[k]),
        r is None <==> exists|q: Seq<u8>| q.len() > u32::MAX && path_before(rz.spath(), q) && #[trigger] rz.sget(q) is Some,
{
    let mut whole = rz.fork();
    whole.reset();
    let m = whole.make_map();
    let entries = m.iter();
    let focus = rz.path();
    let ghost o = rz.spath();
    let mut out: Vec<u8> = Vec::new();
    let mut vals: Vec<V> = Vec::new();
    let ghost mut ps: Seq<Seq<u8>> = Seq::empty();
    let ghost mut idx: Seq<int> = Seq::empty();
    let mut i: usize = 0;
    proof {
        assert forall|q: Seq<u8>| #![trigger m.get(q)] m.get(q) == rz.sget(q) by {
            assert(m.root.node_at(q) == m.root.node_at(q));
            assert(Seq::<u8>::empty() + q =~= q);
        }
    }
    while i < entries.len()
        invariant
            i <= entries@.len(),
            focus@ == o,
            o == rz.spath(),
            forall|q: Seq<u8>| #![trigger m.get(q)] m.get(q) == rz.sget(q),
            forall|k: int| 0 <= k < entries@.len() ==> m.get(#[trigger] entries@[k].0@) == Some(entries@[k].1),
            sorted_paths(entries@),
            out@ == path_records(ps),
            framable(ps),
            vals@.len() == ps.len(),
            ps.len() <= i,
            forall|k: int| 0 <= k < ps.len() ==> m.get(#[trigger] ps[k]) == Some(vals@[k]),
            idx.len() == ps.len(),
            forall|k: int| 0 <= k < ps.len() ==> 0 <= #[trigger] idx[k] < i && ps[k] == entries@[idx[k]].0@ && path_before(o, ps[k]),
            forall|a: int, b: int| 0 <= a < b < idx.len() ==> #[trigger] idx[a] < #[trigger] idx[b],
            forall|j: int| 0 <= j < i && path_before(o, (#[trigger] entries@[j]).0@) ==> exists|k: int| 0 <= k < ps.len() && #[trigger] ps[k] == entries@[j].0@,
        decreases entries@.len() - i,
    {
        let path = &entries[i].0;
        let after_focus = comes_before(focus, path.as_slice());
        proof {
            assert(path@ == entries@[i as int].0@);
        }
        if after_focus {
            if path.len() > u32::MAX as usize {
                proof {
                    let q = entries@[i as int].0@;
                    assert(m.get(q) is Some);
                    assert(rz.sget(q) is Some && path_before(rz.spath(), q) && q.len() > u32::MAX);
                }
                return None;
            }
            write_path_record(&mut out, path.as_slice());
            vals.push(entries[i].1);
            proof {
                let q = path@;
                lemma_path_records_push(ps, q);
                let ps2 = ps.push(q);
                let idx2 = idx.push(i as int);
                assert forall|k: int| 0 <= k < ps2.len() implies #[trigger] ps2[k].len() <= u32::MAX by {
                    if k < ps.len() {
                        assert(ps2[k] == ps[k]);
                    }
                }
                assert forall|k: int| 0 <= k < ps2.len() implies 0 <= #[trigger] idx2[k] < i + 1 && ps2[k] == entries@[idx2[k]].0@ && path_before(o, ps2[k]) by {
                    if k < ps.len() {
                        assert(ps2[k] == ps[k] && idx2[k] == idx[k]);
                    }
                }
                assert forall|k: int| 0 <= k < ps2.len() implies m.get(#[trigger] ps2[k]) == Some(vals@[k]) by {
                    if k < ps.len() {
                        assert(ps2[k] == ps[k]);
                    } else {
                        assert(ps2[k] == entries@[i as int].0@);
                    }
                }
                assert forall|j: int| 0 <= j < i + 1 && path_before(o, (#[trigger] entries@[j]).0@) implies exists|k: int| 0 <= k < ps2.len() && #[trigger] ps2[k] == entries@[j].0@ by {
                    if j < i {
                        let k = choose|k: int| 0 <= k < ps.len() && #[trigger] ps[k] == entries@[j].0@;
                        assert(ps2[k] == ps[k]);
                    } else {
                        assert(ps2[ps.len() as int] == q);
                    }
                }
                ps = ps2;
                idx = idx2;
            }
        } else {
            proof {
                assert forall|j: int| 0 <= j < i + 1 && path_before(o, (#[trigger] entries@[j]).0@) implies exists|k: int| 0 <= k < ps.len() && #[trigger] ps[k] == entries@[j].0@ by {
                    assert(j < i);
                }
            }
        }
        i = i + 1;
    }
    proof {
        assert forall|k: int| 0 <= k < ps.len() implies path_before(o, #[trigger] ps[k]) && rz.sget(ps[k]) is Some by {
            assert(m.get(entries@[idx[k]].0@) is Some);
        }
        assert forall|q: Seq<u8>| path_before(o, q) && #[trigger] rz.sget(q) is Some implies exists|k: int|
            0 <= k < ps.len() && #[trigger] ps[k] == q by {
            assert(m.get(q) is Some);
            let j = choose|j: int| 0 <= j < entries@.len() && #[trigger] entries@[j].0@ == q;
            assert(path_before(o, entries@[j].0@));
        }
        assert forall|a: int, b: int| #![trigger ps[a], ps[b]] 0 <= a < b < ps.len() implies path_before(ps[a], ps[b]) by {
            assert(idx[a] < idx[b]);
            assert(path_before(entries@[idx[a]].0@, entries@[idx[b]].0@));
        }
        assert(lists_paths_after(*rz, ps));
        assert forall|k: int| 0 <= k < ps.len() implies rz.sget(#[trigger] ps[k]) == Some(vals@[k]) by {
            assert(m.get(ps[k]) == Some(vals@[k]));
        }
        assert forall|q: Seq<u8>| q.len() > u32::MAX && path_before(o, q) && #[trigger] rz.sget(q) is Some implies false by {
            let k = choose|k: int| 0 <= k < ps.len() && #[trigger] ps[k] == q;
            assert(ps[k].len() <= u32::MAX);
        }
    }
    Some((out, vals))
}

/// The records of the paths of the space of `rz` that lead to a value and come after its focus,
/// in depth-first order, each path from the zipper's root, with the number of those paths;
/// `None` where one of them is too long for its length to fit in a record
pub fn serialize_paths<V: Copy, Z: ZipperSubtries<V>>(rz: &Z) -> (r: Option<(Vec<u8>, usize)>)
    requires
        rz.zinv(),
    ensures
        r matches Some(res) ==> exists|ps: Seq<Seq<u8>>| #![trigger path_records(ps)] lists_paths_after(*rz, ps)
            && framable(ps) && res.0@ == path_records(ps) && res.1 == ps.len(),
        r is None <==> exists|q: Seq<u8>| q.len() > u32::MAX && path_before(rz.spath(), q) && #[trigger] rz.sget(q) is Some,
{
    match serialize_paths_with_auxdata(rz) {
        Some((bytes, vals)) => Some((bytes, vals.len())),
        None => None,
    }
}


/// Statistics of a serialization: the bytes written to the target, the record bytes before
/// compression, and the number of paths.
#[derive(Debug, Clone, Copy)]
pub struct SerializationStats {
    pub bytes_out: usize,
    pub bytes_in: usize,
    pub path_count: usize,
}

/// Statistics of a deserialization: the bytes read from the source, the record bytes after
/// decompression, and the number of paths read.
#[derive(Debug, Clone, Copy)]
pub struct DeserializationStats {
    pub bytes_in: usize,
    pub bytes_out: usize,
    pub path_count: usize,
}

/// The value the last of the paths `ps` equal to `q` is paired with in `vs`.
pub open spec fn paired_value<V>(ps: Seq<Vec<u8>>, vs: Seq<V>, q: Seq<u8>) -> Option<V>
    decreases ps.len(),
{
    if ps.len() == 0 {
        None
    } else if ps.last()@ == q {
        Some(vs[ps.len() - 1])
    } else {
        paired_value(ps.drop_last(), vs, q)
    }
}

/// Whether `q` is a prefix of one of the paths `ps`.
pub open spec fn leads_into(ps: Seq<Vec<u8>>, q: Seq<u8>) -> bool {
    q.len() == 0 || exists|k: int| 0 <= k < ps.len() && q.is_prefix_of(#[trigger] ps[k]@)
}

/// A map holding `values[k]` at `paths[k]` for each `k`, a later pair winning over an earlier one
/// with the same path
fn map_from_paths<V: Copy>(paths: &[Vec<u8>], values: &[V]) -> (m: PathMap<V>)
    requires
        values@.len() == paths@.len(),
    ensures
        m.wf(),
        forall|q: Seq<u8>| #[trigger] m.get(q) == paired_value(paths@, values@, q),
        forall|q: Seq<u8>| #[trigger] m.has_path(q) == leads_into(paths@, q),
{
    let mut m = PathMap::new();
    let mut i: usize = 0;
    while i < paths.len()
        invariant
            i <= paths@.len(),
            values@.len() == paths@.len(),
            m.wf(),
            forall|q: Seq<u8>| #[trigger] m.get(q) == paired_value(paths@.take(i as int), values@, q),
            forall|q: Seq<u8>| #[trigger] m.has_path(q) == leads_into(paths@.take(i as int), q),
        decreases paths@.len() - i,
    {
        let ghost before = m;
        m.set_val_at(paths[i].as_slice(), values[i]);
        proof {
            let s = paths@.take(i + 1);
            assert(s.drop_last() =~= paths@.take(i as int));
            assert(s.last() == paths@[i as int]);
            assert forall|q: Seq<u8>| #[trigger] m.has_path(q) == leads_into(s, q) by {
                if m.has_path(q) && q.len() > 0 {
                    if q.is_prefix_of(paths@[i as int]@) {
                        assert(q.is_prefix_of(s[i as int]@));
                    } else {
                        assert(before.has_path(q));
                        let k = choose|k: int| 0 <= k < i && q.is_prefix_of(#[trigger] paths@.take(i as int)[k]@);
                        assert(q.is_prefix_of(s[k]@));
                    }
                }
                if leads_into(s, q) && q.len() > 0 {
                    let k = choose|k: int| 0 <= k < s.len() && q.is_prefix_of(#[trigger] s[k]@);
                    if k < i {
                        assert(q.is_prefix_of(paths@.take(i as int)[k]@));
                    }
                }
            }
        }
        i = i + 1;
    }
    proof {
        assert(paths@.take(paths@.len() as int) =~= paths@);
    }
    m
}

/// Replaces everything at and below the focus of `wz` by the paths `paths`, each holding the
/// value `values` gives at its index, a later path winning over an earlier equal one
pub fn deserialize_paths_with_auxdata<V: Copy>(wz: &mut WriteZipper<V>, paths: &[Vec<u8>], values: &[V])
    requires
        old(wz).inv(),
        values@.len() == paths@.len(),
    ensures
        final(wz).inv(),
        final(wz).same_place(*old(wz)),
        grafted(old(wz).trie(), final(wz).trie(), old(wz).focus_path(), |q: Seq<u8>| paired_value(paths@, values@, q),
            |q: Seq<u8>| leads_into(paths@, q)),
{
    let m = map_from_paths(paths, values);
    wz.graft_node(m.root);
    proof {
        assert forall|q: Seq<u8>| #![trigger m.get(q)] m.root.get(q) == paired_value(paths@, values@, q) && m.root.has_path(q) == leads_into(paths@, q) by {
            assert(m.get(q) == paired_value(paths@, values@, q));
            assert(m.has_path(q) == leads_into(paths@, q));
        }
        let new = wz.trie();
        let at = old(wz).focus_path();
        assert forall|q: Seq<u8>| #![trigger new.node_at(q)] at.is_prefix_of(q) implies new.get(q) == paired_value(paths@, values@, q.skip(at.len() as int))
            && new.has_path(q) == leads_into(paths@, q.skip(at.len() as int)) by {
            assert(m.get(q.skip(at.len() as int)) == paired_value(paths@, values@, q.skip(at.len() as int)));
            assert(m.has_path(q.skip(at.len() as int)) == leads_into(paths@, q.skip(at.len() as int)));
        }
    }
}


/// `n` copies of `v`.
pub open spec fn copies<V>(v: V, n: nat) -> Seq<V> {
    Seq::new(n, |i: int| v)
}

/// Replaces everything at and below the focus of `wz` by the paths `paths`, each holding `v`
pub fn deserialize_paths<V: Copy>(wz: &mut WriteZipper<V>, paths: &[Vec<u8>], v: V)
    requires
        old(wz).inv(),
    ensures
        final(wz).inv(),
        final(wz).same_place(*old(wz)),
        grafted(old(wz).trie(), final(wz).trie(), old(wz).focus_path(), |q: Seq<u8>| paired_value(paths@, copies(v, paths@.len()), q),
            |q: Seq<u8>| leads_into(paths@, q)),
{
    let mut values: Vec<V> = Vec::new();
    let mut i: usize = 0;
    while i < paths.len()
        invariant
            i <= paths@.len(),
            values@ == copies(v, i as nat),
        decreases paths@.len() - i,
    {
        values.push(v);
        proof {
            assert(values@ =~= copies(v, (i + 1) as nat));
        }
        i = i + 1;
    }
    deserialize_paths_with_auxdata(wz, paths, values.as_slice());
}


/// A path is paired with a value exactly where it is one of the paths.
proof fn lemma_paired_value_some<V>(ps: Seq<Vec<u8>>, vs: Seq<V>, q: Seq<u8>)
    ensures
        paired_value(ps, vs, q) is Some <==> exists|k: int| 0 <= k < ps.len() && #[trigger] ps[k]@ == q,
    decreases ps.len(),
{
    if ps.len() > 0 {
        lemma_paired_value_some(ps.drop_last(), vs, q);
        if exists|k: int| 0 <= k < ps.len() && #[trigger] ps[k]@ == q {
            let k = choose|k: int| 0 <= k < ps.len() && #[trigger] ps[k]@ == q;
            if k < ps.len() - 1 {
                assert(ps.drop_last()[k] == ps[k]);
            }
        }
        if exists|k: int| 0 <= k < ps.drop_last().len() && #[trigger] ps.drop_last()[k]@ == q {
            let k = choose|k: int| 0 <= k < ps.drop_last().len() && #[trigger] ps.drop_last()[k]@ == q;
            assert(ps[k] == ps.drop_last()[k]);
        }
    }
}

/// Writing the paths that lead to a value after a focus as records, reading the records back,
/// and grafting what was read with a value on every path gives a value exactly on the paths of
/// the space that lead to a value and come after the focus in depth-first order.
pub proof fn law_serialize_round_trip<Z: ZipperMoving, V>(z: Z, ps: Seq<Seq<u8>>, back: Seq<Vec<u8>>, v: V)
    requires
        lists_paths_after(z, ps),
        framable(ps),
        path_views(back) == parse_records(path_records(ps)).0,
    ensures
        forall|q: Seq<u8>| #[trigger] paired_value(back, copies(v, back.len()), q) is Some <==> (path_before(
            z.spath(),
            q,
        ) && z.sget(q) is Some),
{
    law_records_round_trip(ps);
    assert(path_views(back) == ps);
    assert forall|q: Seq<u8>| #[trigger] paired_value(back, copies(v, back.len()), q) is Some <==> (path_before(
        z.spath(),
        q,
    ) && z.sget(q) is Some) by {
        lemma_paired_value_some(back, copies(v, back.len()), q);
        if exists|k: int| 0 <= k < back.len() && #[trigger] back[k]@ == q {
            let k = choose|k: int| 0 <= k < back.len() && #[trigger] back[k]@ == q;
            assert(path_views(back)[k] == back[k]@);
            assert(ps[k] == q);
        }
        if path_before(z.spath(), q) && z.sget(q) is Some {
            let k = choose|k: int| 0 <= k < ps.len() && #[trigger] ps[k] == q;
            assert(path_views(back)[k] == back[k]@);
        }
    }
}

} // verus!
