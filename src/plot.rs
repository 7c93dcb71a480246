use vstd::prelude::*;
use vstd::string::StringSliceAdditionalSpecFns;
use crate::identity::{Meta, PlotError, as_chars, canonical_name, parse_name};
use crate::random::draw_below;

verus! {

/// Scoops in one nonce.
pub const SCOOPS_IN_NONCE: u64 = 4096;

/// Bytes in one scoop: two 32-byte digests.
pub const SCOOP_SIZE: u64 = 64;

/// Bytes in one nonce.
pub const NONCE_SIZE: u64 = 262144;

/// The most nonces whose plot size still fits in 64 bits.
pub const MAX_NONCES: u64 = 70368744177663;

/// An open plot: its identity, how it is read, and how far the current sweep
/// over a scoop plane has come.
///
/// The file is scoop-major: plane `s` holds scoop `s` of every nonce, in nonce
/// order, at bytes `[s * nonces * SCOOP_SIZE, (s + 1) * nonces * SCOOP_SIZE)`.
pub struct Plot {
    pub meta: Meta,
    pub path: String,
    /// Bytes of the plane already handed out in the current sweep.
    pub read_offset: u64,
    /// Reads bypass the page cache and need sector-aligned offsets.
    pub use_direct_io: bool,
    pub sector_size: u64,
    /// Seeks are made but no data is read.
    pub dummy: bool,
}

/// Bytes needed to move `addr` up to the next multiple of `sector`.
pub open spec fn padding(addr: int, sector: int) -> int {
    if addr % sector == 0 {
        0
    } else {
        sector - addr % sector
    }
}

impl Plot {
    /// Bytes of one scoop plane.
    pub open spec fn plane_size(&self) -> int {
        self.meta.nonces * SCOOP_SIZE
    }

    /// Where the plane of `scoop` begins.
    pub open spec fn plane_start(&self, scoop: int) -> int {
        scoop * self.plane_size()
    }

    /// Bytes of the whole file.
    pub open spec fn file_size(&self) -> int {
        self.meta.nonces * NONCE_SIZE
    }

    pub open spec fn wf(&self) -> bool {
        &&& 0 < self.meta.nonces <= MAX_NONCES
        &&& self.use_direct_io ==> self.sector_size > 0 && self.sector_size / SCOOP_SIZE
            <= self.meta.nonces
        &&& self.read_offset <= self.plane_size() || (self.use_direct_io && self.read_offset
            < self.sector_size)
    }

    /// Where a seek toward `addr` lands: under direct I/O the next sector
    /// boundary at or after it, else `addr` itself.
    pub open spec fn aligned(&self, addr: int) -> int {
        if self.use_direct_io {
            addr + padding(addr, self.sector_size as int)
        } else {
            addr
        }
    }

    /// The read offset that a sweep starting at the plane of `scoop` begins
    /// with: the bytes that alignment skipped.
    pub open spec fn start_offset(&self, scoop: int) -> int {
        self.aligned(self.plane_start(scoop)) - self.plane_start(scoop)
    }

    /// The same plot at another point of its sweep.
    pub open spec fn at_offset(&self, offset: int) -> Plot {
        Plot {
            meta: self.meta,
            path: self.path,
            read_offset: offset as u64,
            use_direct_io: self.use_direct_io,
            sector_size: self.sector_size,
            dummy: self.dummy,
        }
    }

    /// Everything but the read offset is the same.
    pub open spec fn same_setup(&self, other: Plot) -> bool {
        other == self.at_offset(other.read_offset as int)
    }
}

proof fn lemma_plane_bounds(p: Plot, scoop: int)
    requires
        p.wf(),
        0 <= scoop < SCOOPS_IN_NONCE,
    ensures
        0 <= p.plane_start(scoop),
        p.plane_start(scoop) + p.plane_size() <= p.file_size(),
        p.file_size() == SCOOPS_IN_NONCE * p.plane_size(),
        p.file_size() + SCOOP_SIZE * 2 <= u64::MAX,
{
    let n = p.meta.nonces as int;
    assert(0 <= scoop * (n * 64)) by (nonlinear_arith)
        requires
            0 <= scoop,
            0 <= n,
    ;
    assert(scoop * (n * 64) + n * 64 <= n * 262144) by (nonlinear_arith)
        requires
            0 <= scoop < 4096,
            0 <= n,
    ;
    assert(n * 262144 + 128 <= u64::MAX) by (nonlinear_arith)
        requires
            n <= MAX_NONCES,
    ;
}

proof fn lemma_aligned_bounds(p: Plot, scoop: int)
    requires
        p.wf(),
        0 <= scoop < SCOOPS_IN_NONCE,
    ensures
        0 <= p.start_offset(scoop),
        p.use_direct_io ==> p.start_offset(scoop) < p.sector_size,
        !p.use_direct_io ==> p.start_offset(scoop) == 0,
        p.aligned(p.plane_start(scoop)) <= u64::MAX,
        p.use_direct_io ==> p.plane_start(scoop) + p.sector_size <= u64::MAX,
        (!p.use_direct_io || p.sector_size <= p.plane_size()) ==> p.aligned(p.plane_start(scoop))
            < p.file_size(),
{
    lemma_plane_bounds(p, scoop);
    if p.use_direct_io {
        let a = p.plane_start(scoop);
        let s = p.sector_size as int;
        assert(s <= p.plane_size() + 63) by (nonlinear_arith)
            requires
                s / 64 <= p.meta.nonces,
                p.plane_size() == p.meta.nonces * 64,
                s > 0,
        ;
        assert(0 <= a % s < s) by (nonlinear_arith)
            requires
                s > 0,
        ;
    }
}

impl Plot {
    /// Sets up a plot whose file is named `file_name`, stands at `path`, and
    /// holds `file_size` bytes, on a device with sectors of `sector_size`
    /// bytes. Direct I/O is kept only where the plane holds at least one
    /// sector's worth of scoops.
    pub fn new(
        file_name: &str,
        path: String,
        file_size: u64,
        use_direct_io: bool,
        sector_size: u64,
        dummy: bool,
    ) -> (r: Result<Plot, PlotError>)
        requires
            use_direct_io ==> sector_size > 0,
        ensures
            match parse_name(file_name.spec_bytes()) {
                None => r == Err::<Plot, PlotError>(PlotError::MalformedName),
                Some((a, s, n)) => if file_size != n * NONCE_SIZE {
                    r == Err::<Plot, PlotError>(
                        PlotError::SizeMismatch { expected: (n * NONCE_SIZE) as u128, actual: file_size },
                    )
                } else {
                    r matches Ok(p) && p.wf() && p.meta.account_id == a && p.meta.start_nonce == s
                        && p.meta.nonces == n && p.meta.name@ == as_chars(canonical_name(a, s, n)) && p.path == path
                        && p.read_offset == 0 && p.use_direct_io == (use_direct_io && sector_size
                        / SCOOP_SIZE <= n) && p.sector_size == sector_size && p.dummy == dummy
                },
            },
    {
        let meta = match Meta::parse(file_name) {
            Ok(m) => m,
            Err(e) => {
                return Err(e);
            },
        };
        let expected = meta.nonces as u128 * NONCE_SIZE as u128;
        if expected != file_size as u128 {
            return Err(PlotError::SizeMismatch { expected, actual: file_size });
        }
        assert(meta.nonces <= MAX_NONCES) by (nonlinear_arith)
            requires
                meta.nonces * 262144 <= u64::MAX,
        ;
        let keep_direct_io = use_direct_io && sector_size / SCOOP_SIZE <= meta.nonces;
        Ok(Plot { meta, path, read_offset: 0, use_direct_io: keep_direct_io, sector_size, dummy })
    }

    /// Moves `seek_addr` up to the next sector boundary, and returns how far
    /// it moved.
    fn round_seek_addr(&self, seek_addr: &mut u64) -> (r: u64)
        requires
            self.sector_size > 0,
            *old(seek_addr) + self.sector_size <= u64::MAX,
        ensures
            r == padding(*old(seek_addr) as int, self.sector_size as int),
            *final(seek_addr) == *old(seek_addr) + r,
            r < self.sector_size,
            *final(seek_addr) % self.sector_size == 0,
            *old(seek_addr) % self.sector_size == 0 ==> r == 0,
    {
        proof {
            let a = *seek_addr as int;
            let ss = self.sector_size as int;
            assert(0 <= a % ss < ss) by (nonlinear_arith)
                requires
                    ss > 0,
            ;
            if a % ss != 0 {
                vstd::arithmetic::div_mod::lemma_fundamental_div_mod(a, ss);
                assert((a / ss + 1) * ss == (a / ss) * ss + ss) by (nonlinear_arith);
                vstd::arithmetic::div_mod::lemma_fundamental_div_mod_converse(
                    a + (ss - a % ss),
                    ss,
                    a / ss + 1,
                    0,
                );
            }
        }
        let r = *seek_addr % self.sector_size;
        if r != 0 {
            let offset = self.sector_size - r;
            *seek_addr = *seek_addr + offset;
            offset
        } else {
            0
        }
    }

    /// Where the plane of `scoop` begins in the file.
    fn plane_start_of(&self, scoop: u64) -> (r: u64)
        requires
            self.wf(),
            scoop < SCOOPS_IN_NONCE,
        ensures
            r == self.plane_start(scoop as int),
    {
        proof {
            lemma_plane_bounds(*self, scoop as int);
        }
        scoop * (self.meta.nonces * SCOOP_SIZE)
    }

    /// Starts a sweep over the plane of the first of `scoop_array`: the read
    /// offset goes back to the start, except that under direct I/O the bytes
    /// skipped to reach a sector boundary count as read. Returns the position
    /// to seek the file to.
    pub fn prepare(&mut self, scoop_array: &Vec<u32>) -> (r: u64)
        requires
            old(self).wf(),
            scoop_array.len() > 0,
            scoop_array[0] < SCOOPS_IN_NONCE,
        ensures
            final(self).wf(),
            old(self).same_setup(*final(self)),
            final(self).read_offset == old(self).start_offset(scoop_array[0] as int),
            r == old(self).aligned(old(self).plane_start(scoop_array[0] as int)),
            old(self).use_direct_io ==> final(self).read_offset < old(self).sector_size,
            !old(self).use_direct_io ==> final(self).read_offset == 0,
    {
        proof {
            lemma_aligned_bounds(*self, scoop_array[0] as int);
        }
        self.read_offset = 0;
        let mut seek_addr = self.plane_start_of(scoop_array[0] as u64);
        if self.use_direct_io {
            self.read_offset = self.round_seek_addr(&mut seek_addr);
        }
        seek_addr
    }

    /// Where a seek to the plane of `scoop` lands.
    pub fn seek_target(&self, scoop: u64) -> (r: u64)
        requires
            self.wf(),
            scoop < SCOOPS_IN_NONCE,
        ensures
            r == self.aligned(self.plane_start(scoop as int)),
            (!self.use_direct_io || self.sector_size <= self.plane_size()) ==> r
                < self.file_size(),
    {
        proof {
            lemma_aligned_bounds(*self, scoop as int);
        }
        let mut seek_addr = self.plane_start_of(scoop);
        if self.use_direct_io {
            self.round_seek_addr(&mut seek_addr);
        }
        seek_addr
    }

    /// Where a seek to the plane of a scoop drawn at random lands.
    pub fn seek_random(&self) -> (r: u64)
        requires
            self.wf(),
        ensures
            exists|s: int| 0 <= s < SCOOPS_IN_NONCE && r == self.aligned(self.plane_start(s)),
            (!self.use_direct_io || self.sector_size <= self.plane_size()) ==> r
                < self.file_size(),
    {
        let scoop = draw_below(SCOOPS_IN_NONCE);
        self.seek_target(scoop)
    }
}


/// One step of a chunk read: seek the file to `file_pos`, then read `len`
/// bytes into the buffer at `buf_start`.
#[derive(Debug, Clone, Copy, PartialEq, Eq, Structural)]
pub struct Segment {
    pub file_pos: u64,
    pub buf_start: usize,
    pub len: usize,
}

/// What one call of `read` hands out, and how the buffer is to be filled.
pub struct ReadChunk {
    /// Bytes placed in the buffer.
    pub bytes_read: usize,
    /// The nonce that the first scoop in the buffer belongs to.
    pub start_nonce: u64,
    /// This chunk ends the sweep.
    pub finished: bool,
    /// The seeks and reads that fill the buffer, in buffer order.
    pub segments: Vec<Segment>,
    /// Whether the reads are made, or only the seeks.
    pub read_data: bool,
}

/// Whether a chunk of `cap` bytes from the current offset reaches the end of
/// the plane.
pub open spec fn is_last_chunk(p: Plot, cap: int) -> bool {
    p.read_offset + cap >= p.plane_size()
}

/// Bytes that one chunk hands out: the buffer's capacity, or what is left of
/// the plane, cut under direct I/O to whole sectors.
pub open spec fn chunk_len(p: Plot, cap: int) -> int {
    if is_last_chunk(p, cap) {
        let rest = if p.read_offset <= p.plane_size() {
            p.plane_size() - p.read_offset
        } else {
            0
        };
        if p.use_direct_io {
            rest - rest % (p.sector_size as int)
        } else {
            rest
        }
    } else {
        cap
    }
}

/// The nonce of the first scoop of the chunk, in 64 bits.
pub open spec fn chunk_start_nonce(p: Plot) -> int {
    (p.meta.start_nonce + (p.read_offset as int) / (SCOOP_SIZE as int)) % 0x1_0000_0000_0000_0000
}

/// Which entry of `scoops` supplies the buffer byte `b`: the nonces of a cycle
/// of `SCOOPS_IN_NONCE` are dealt out to the entries in runs of equal length,
/// the first run starting where the nonce plus the first scoop is a multiple
/// of the cycle.
pub open spec fn slot_of(p: Plot, scoops: Seq<u32>, b: int) -> int {
    ((chunk_start_nonce(p) + scoops[0] + b / (SCOOP_SIZE as int)) % (SCOOPS_IN_NONCE as int)) / (
    (SCOOPS_IN_NONCE as int) / (scoops.len() as int))
}

/// The file position that buffer byte `b` of the chunk is read from.
pub open spec fn source_pos(p: Plot, scoops: Seq<u32>, b: int) -> int {
    p.plane_start(scoops[slot_of(p, scoops, b)] as int) + p.read_offset + b
}

/// The file positions of the bytes of one chunk, in buffer order.
pub open spec fn chunk_sources(p: Plot, cap: int, scoops: Seq<u32>) -> Seq<int> {
    Seq::new(chunk_len(p, cap) as nat, |b: int| source_pos(p, scoops, b))
}

/// The file positions that a list of segments reads, in order.
pub open spec fn segment_sources(segs: Seq<Segment>) -> Seq<int>
    decreases segs.len(),
{
    if segs.len() == 0 {
        Seq::empty()
    } else {
        let s = segs.last();
        segment_sources(segs.drop_last()) + Seq::new(s.len as nat, |t: int| s.file_pos + t)
    }
}

/// Each segment fills the buffer right after the ones before it.
pub open spec fn segments_in_order(segs: Seq<Segment>) -> bool {
    forall|i: int|
        0 <= i < segs.len() ==> #[trigger] segs[i].buf_start == segment_sources(segs.take(i)).len()
}

/// A list of scoop numbers that `read` can interleave.
pub open spec fn valid_scoops(scoops: Seq<u32>) -> bool {
    &&& 0 < scoops.len()
    &&& (SCOOPS_IN_NONCE as int) % (scoops.len() as int) == 0
    &&& forall|i: int| 0 <= i < scoops.len() ==> #[trigger] scoops[i] < SCOOPS_IN_NONCE
}

/// Buffer bytes `[b, b + u * SCOOP_SIZE)` come from one entry, where `b` is
/// a whole number of scoops into the chunk and the run stays in one slot.
proof fn lemma_slot_run(x: int, per_slot: int, k: int, u: int)
    requires
        x >= 0,
        k > 0,
        k * per_slot == 4096,
        0 <= u,
        u < per_slot - (x % 4096) % per_slot,
    ensures
        ((x + u) % 4096) / per_slot == (x % 4096) / per_slot,
        (x % 4096) / per_slot < k,
{
    let q = x % 4096;
    assert(0 <= q < 4096);
    assert(per_slot > 0) by (nonlinear_arith)
        requires
            k > 0,
            k * per_slot == 4096,
    ;
    let j = q / per_slot;
    let m = q % per_slot;
    vstd::arithmetic::div_mod::lemma_fundamental_div_mod(q, per_slot);
    assert(0 <= m < per_slot);
    assert(q == j * per_slot + m);
    assert(j < k) by (nonlinear_arith)
        requires
            q == j * per_slot + m,
            0 <= m,
            q < 4096,
            k * per_slot == 4096,
            per_slot > 0,
    ;
    assert((j + 1) * per_slot <= k * per_slot) by (nonlinear_arith)
        requires
            j + 1 <= k,
            per_slot > 0,
    ;
    assert((j + 1) * per_slot == j * per_slot + per_slot) by (nonlinear_arith);
    assert(q + u < 4096);
    vstd::arithmetic::div_mod::lemma_fundamental_div_mod(x, 4096);
    vstd::arithmetic::div_mod::lemma_fundamental_div_mod_converse(x + u, 4096, x / 4096, q + u);
    vstd::arithmetic::div_mod::lemma_fundamental_div_mod_converse(q + u, per_slot, j, m + u);
}

impl Plot {
    /// Hands out the next chunk of the sweep over the planes of
    /// `scoop_array` into a buffer of `buffer_cap` bytes, and advances the
    /// read offset past it.
    ///
    /// With one scoop the chunk is one stretch of its plane. With several,
    /// each nonce of the chunk gets the scoop of the entry that its place in
    /// the cycle of `SCOOPS_IN_NONCE` nonces selects, read from that entry's
    /// plane; the runs of one entry switch to the next in turn.
    pub fn read(&mut self, buffer_cap: usize, scoop_array: &Vec<u32>) -> (r: ReadChunk)
        requires
            old(self).wf(),
            valid_scoops(scoop_array@),
        ensures
            final(self).wf(),
            old(self).same_setup(*final(self)),
            r.bytes_read == chunk_len(*old(self), buffer_cap as int),
            final(self).read_offset == old(self).read_offset + r.bytes_read,
            r.start_nonce == chunk_start_nonce(*old(self)),
            r.finished == is_last_chunk(*old(self), buffer_cap as int),
            r.read_data == !old(self).dummy,
            segment_sources(r.segments@) == chunk_sources(*old(self), buffer_cap as int, scoop_array@),
            segments_in_order(r.segments@),
            !r.finished ==> final(self).read_offset < old(self).plane_size(),
            !old(self).use_direct_io ==> (r.finished <==> final(self).read_offset
                == old(self).plane_size()),
            r.finished && old(self).use_direct_io && old(self).read_offset <= old(self).plane_size()
                ==> old(self).plane_size() - final(self).read_offset < old(self).sector_size,
    {
        let ghost p = *self;
        let ro = self.read_offset;
        let plane = self.meta.nonces * SCOOP_SIZE;
        proof {
            lemma_plane_bounds(p, 0);
            lemma_aligned_bounds(p, 0);
        }
        let rest: u64 = if ro <= plane {
            plane - ro
        } else {
            0
        };
        let finished = ro >= plane || buffer_cap as u64 >= rest;
        let bytes: usize = if finished {
            let mut n = rest;
            if self.use_direct_io {
                assert(n % self.sector_size <= n && n % self.sector_size < self.sector_size)
                    by (nonlinear_arith)
                    requires
                        self.sector_size > 0,
                ;
                n = n - n % self.sector_size;
            }
            n as usize
        } else {
            buffer_cap
        };
        assert(bytes == chunk_len(p, buffer_cap as int));
        assert(ro + bytes <= plane || bytes == 0);
        let start_nonce = ((self.meta.start_nonce as u128 + (ro / SCOOP_SIZE) as u128)
            % 0x1_0000_0000_0000_0000u128) as u64;

        let k = scoop_array.len();
        let per_slot = SCOOPS_IN_NONCE as usize / k;
        let s0 = scoop_array[0] as u64;
        assert(k * per_slot == 4096) by (nonlinear_arith)
            requires
                4096int % (k as int) == 0,
                per_slot == 4096int / (k as int),
                k > 0,
        ;
        assert(0 < per_slot <= 4096) by (nonlinear_arith)
            requires
                k * per_slot == 4096,
                k > 0,
        ;
        let ghost x0 = start_nonce + s0;
        let mut phase = ((start_nonce % SCOOPS_IN_NONCE) + s0) % SCOOPS_IN_NONCE;
        proof {
            vstd::arithmetic::div_mod::lemma_add_mod_noop(start_nonce as int, s0 as int, 4096);
            vstd::arithmetic::div_mod::lemma_mod_twice(s0 as int, 4096);
        }

        let mut segments: Vec<Segment> = Vec::new();
        let mut b: usize = 0;
        while b < bytes
            invariant
                b <= bytes,
                bytes == chunk_len(p, buffer_cap as int),
                ro == p.read_offset,
                *self == p,
                ro + bytes <= plane || bytes == 0,
                plane == p.plane_size(),
                p.wf(),
                valid_scoops(scoop_array@),
                k == scoop_array@.len(),
                k * per_slot == 4096,
                0 < per_slot <= 4096,
                phase < 4096,
                s0 == scoop_array@[0],
                start_nonce == chunk_start_nonce(p),
                x0 == start_nonce + s0,
                b < bytes ==> b % 64 == 0,
                b < bytes ==> phase == (x0 + b / 64) % 4096,
                per_slot as int == 4096int / (k as int),
                segment_sources(segments@) == chunk_sources(p, buffer_cap as int, scoop_array@).take(b as int),
                segments_in_order(segments@),
            decreases bytes - b,
        {
            let left = bytes - b;
            let slot: usize = (phase / per_slot as u64) as usize;
            let run_nonces: u64 = per_slot as u64 - phase % per_slot as u64;
            let len: usize = if k == 1 || run_nonces as usize * 64 >= left {
                left
            } else {
                run_nonces as usize * 64
            };
            proof {
                lemma_slot_run(x0 + b / 64, per_slot as int, k as int, 0);
            }
            let scoop = scoop_array[slot] as u64;
            proof {
                lemma_plane_bounds(p, scoop as int);
            }
            let file_pos = self.plane_start_of(scoop) + ro + b as u64;
            let seg = Segment { file_pos, buf_start: b, len };
            let ghost before = segments@;
            segments.push(seg);
            proof {
                let src = chunk_sources(p, buffer_cap as int, scoop_array@);
                assert(segments@.drop_last() == before);
                assert(segments@.last() == seg);
                assert forall|i: int| b <= i < b + len implies #[trigger] source_pos(
                    p,
                    scoop_array@,
                    i,
                ) == file_pos + (i - b) by {
                    let t = i - b;
                    assert(i / 64 == b / 64 + t / 64) by (nonlinear_arith)
                        requires
                            b % 64 == 0,
                            t >= 0,
                            b >= 0,
                            i == b + t,
                    ;
                    if k == 1 {
                        assert(((x0 + i / 64) % 4096) / 4096 == 0) by (nonlinear_arith)
                            requires
                                x0 + i / 64 >= 0,
                        ;
                        assert(phase / 4096 == 0);
                    } else {
                        assert(t / 64 < run_nonces) by (nonlinear_arith)
                            requires
                                t < run_nonces * 64,
                                t >= 0,
                        ;
                        lemma_slot_run(x0 + b / 64, per_slot as int, k as int, t / 64);
                    }
                    assert(slot_of(p, scoop_array@, i) == slot);
                }
                assert(segment_sources(segments@) == segment_sources(before) + Seq::new(
                    len as nat,
                    |t: int| file_pos + t,
                ));
                assert(segment_sources(segments@) =~= src.take(b + len));
                assert forall|i: int| 0 <= i < segments@.len() implies #[trigger] segments@[i].buf_start
                    == segment_sources(segments@.take(i)).len() by {
                    if i < before.len() {
                        assert(segments@.take(i) =~= before.take(i));
                    } else {
                        assert(segments@.take(i) =~= before);
                    }
                }
            }
            b = b + len;
            if b < bytes {
                proof {
                    let b0 = b - len;
                    assert(b / 64 == b0 / 64 + run_nonces && b % 64 == 0) by (nonlinear_arith)
                        requires
                            b0 % 64 == 0,
                            b0 >= 0,
                            b == b0 + run_nonces * 64,
                    ;
                    vstd::arithmetic::div_mod::lemma_add_mod_noop_right(
                        run_nonces as int,
                        x0 + b0 / 64,
                        4096,
                    );
                }
            }
            phase = (phase + run_nonces) % SCOOPS_IN_NONCE;
        }
        assert(segment_sources(segments@) =~= chunk_sources(p, buffer_cap as int, scoop_array@));
        self.read_offset = ro + bytes as u64;
        ReadChunk { bytes_read: bytes, start_nonce, finished, segments, read_data: !self.dummy }
    }
}

/// The file positions that a whole sweep reads with a buffer of `cap` bytes:
/// chunk after chunk from the current offset, up to the chunk that ends it.
pub open spec fn sweep_sources(p: Plot, cap: int, scoops: Seq<u32>) -> Seq<int>
    decreases p.plane_size() - p.read_offset,
{
    if cap <= 0 || !p.wf() {
        Seq::empty()
    } else if is_last_chunk(p, cap) {
        chunk_sources(p, cap, scoops)
    } else {
        chunk_sources(p, cap, scoops) + sweep_sources(p.at_offset(p.read_offset + cap), cap, scoops)
    }
}

/// Where `prepare` leaves a plot before a sweep over `scoops`.
pub open spec fn prepared(p: Plot, scoops: Seq<u32>) -> Plot {
    p.at_offset(p.start_offset(scoops[0] as int))
}

proof fn lemma_slot_in_range(p: Plot, scoops: Seq<u32>, b: int)
    requires
        valid_scoops(scoops),
        b >= 0,
    ensures
        0 <= slot_of(p, scoops, b) < scoops.len(),
        scoops.len() == 1 ==> slot_of(p, scoops, b) == 0,
{
    let k = scoops.len() as int;
    let per_slot = 4096int / k;
    assert(k * per_slot == 4096) by (nonlinear_arith)
        requires
            4096int % k == 0,
            per_slot == 4096int / k,
            k > 0,
    ;
    let x = chunk_start_nonce(p) + scoops[0] + b / 64;
    assert(x >= 0) by (nonlinear_arith)
        requires
            chunk_start_nonce(p) >= 0,
            scoops[0] >= 0,
            b >= 0,
            x == chunk_start_nonce(p) + scoops[0] + b / 64,
    ;
    lemma_slot_run(x, per_slot, k, 0);
    assert(0 <= (x % 4096) / per_slot) by (nonlinear_arith)
        requires
            x >= 0,
            per_slot > 0,
    ;
}

proof fn lemma_single_sweep_from(p: Plot, cap: int, scoop: u32)
    requires
        p.wf(),
        p.use_direct_io ==> p.plane_size() % (p.sector_size as int) == 0 && (p.read_offset as int) % (
        p.sector_size as int) == 0 && cap % (p.sector_size as int) == 0,
        scoop < SCOOPS_IN_NONCE,
        cap > 0,
    ensures
        sweep_sources(p, cap, seq![scoop]) =~= Seq::new(
            (p.plane_size() - p.read_offset) as nat,
            |i: int| p.plane_start(scoop as int) + p.read_offset + i,
        ),
    decreases p.plane_size() - p.read_offset,
{
    let scoops = seq![scoop];
    assert(valid_scoops(scoops));
    let ro = p.read_offset as int;
    let plane = p.plane_size();
    if p.use_direct_io {
        let ss = p.sector_size as int;
        if ro > plane {
            vstd::arithmetic::div_mod::lemma_small_mod(ro as nat, ss as nat);
        }
        assert(0int % ss == 0) by (nonlinear_arith)
            requires
                ss > 0,
        ;
        if is_last_chunk(p, cap) {
            vstd::arithmetic::div_mod::lemma_sub_mod_noop(plane, ro, ss);
            assert((plane - ro) % ss == 0);
        } else {
            vstd::arithmetic::div_mod::lemma_add_mod_noop(ro, cap, ss);
        }
    }
    let c = chunk_sources(p, cap, scoops);
    assert forall|b: int| 0 <= b < c.len() implies c[b] == p.plane_start(scoop as int)
        + p.read_offset + b by {
        lemma_slot_in_range(p, scoops, b);
    }
    if !is_last_chunk(p, cap) {
        let q = p.at_offset(p.read_offset + cap);
        lemma_single_sweep_from(q, cap, scoop);
    }
}

/// Under direct I/O, a sweep of `scoop` loses nothing to alignment: the plane
/// begins on a sector boundary, and the plane and the buffer are whole sectors.
pub open spec fn sweep_is_sector_aligned(p: Plot, scoop: int, cap: int) -> bool {
    p.use_direct_io ==> p.plane_size() % (p.sector_size as int) == 0 && p.plane_start(scoop) % (
    p.sector_size as int) == 0 && cap % (p.sector_size as int) == 0
}

/// A sweep of one scoop, from where `prepare` leaves the plot, reads that
/// scoop's plane whole and in order: `nonces * SCOOP_SIZE` bytes from the
/// plane's start. This holds without direct I/O, and under direct I/O where
/// the sweep is sector-aligned.
pub proof fn lemma_single_scoop_sweep(p: Plot, scoop: u32, cap: int)
    requires
        p.wf(),
        sweep_is_sector_aligned(p, scoop as int, cap),
        scoop < SCOOPS_IN_NONCE,
        cap > 0,
    ensures
        sweep_sources(prepared(p, seq![scoop]), cap, seq![scoop]) =~= Seq::new(
            p.plane_size() as nat,
            |i: int| p.plane_start(scoop as int) + i,
        ),
{
    lemma_aligned_bounds(p, scoop as int);
    let q = prepared(p, seq![scoop]);
    if p.use_direct_io {
        assert(q.read_offset == 0);
        assert(0int % (p.sector_size as int) == 0) by (nonlinear_arith)
            requires
                p.sector_size > 0,
        ;
    }
    lemma_single_sweep_from(q, cap, scoop);
}

proof fn lemma_multi_sweep_from(p: Plot, cap: int, scoops: Seq<u32>)
    requires
        p.wf(),
        !p.use_direct_io,
        valid_scoops(scoops),
        cap > 0,
    ensures
        sweep_sources(p, cap, scoops).len() == p.plane_size() - p.read_offset,
        forall|i: int|
            0 <= i < p.plane_size() - p.read_offset ==> exists|j: int|
                0 <= j < scoops.len() && #[trigger] sweep_sources(p, cap, scoops)[i]
                    == p.plane_start(scoops[j] as int) + p.read_offset + i,
    decreases p.plane_size() - p.read_offset,
{
    let c = chunk_sources(p, cap, scoops);
    let m = sweep_sources(p, cap, scoops);
    assert forall|b: int| 0 <= b < c.len() implies exists|j: int|
        0 <= j < scoops.len() && #[trigger] c[b] == p.plane_start(scoops[j] as int) + p.read_offset
            + b by {
        lemma_slot_in_range(p, scoops, b);
        let j = slot_of(p, scoops, b);
        assert(c[b] == p.plane_start(scoops[j] as int) + p.read_offset + b);
    }
    if !is_last_chunk(p, cap) {
        let q = p.at_offset(p.read_offset + cap);
        lemma_multi_sweep_from(q, cap, scoops);
        let rest = sweep_sources(q, cap, scoops);
        assert(m == c + rest);
        assert forall|i: int| 0 <= i < p.plane_size() - p.read_offset implies exists|j: int|
            0 <= j < scoops.len() && #[trigger] m[i] == p.plane_start(scoops[j] as int)
                + p.read_offset + i by {
            if i < cap {
                assert(m[i] == c[i]);
            } else {
                assert(m[i] == rest[i - cap]);
                let j = choose|j: int|
                    0 <= j < scoops.len() && #[trigger] rest[i - cap] == p.plane_start(
                        scoops[j] as int,
                    ) + q.read_offset + (i - cap);
                assert(m[i] == p.plane_start(scoops[j] as int) + p.read_offset + i);
            }
        }
    }
}

/// A sweep over several scoops without direct I/O, from where `prepare`
/// leaves the plot, hands out one plane's worth of bytes, and each of them is
/// the byte at the same place of the single-scoop sweep of one of the scoops:
/// taking out the runs of one scoop gives back bytes of that scoop's own sweep.
pub proof fn lemma_multi_scoop_sweep(p: Plot, scoops: Seq<u32>, cap: int)
    requires
        p.wf(),
        !p.use_direct_io,
        valid_scoops(scoops),
        cap > 0,
    ensures
        sweep_sources(prepared(p, scoops), cap, scoops).len() == p.plane_size(),
        forall|i: int|
            0 <= i < p.plane_size() ==> exists|j: int|
                0 <= j < scoops.len() && #[trigger] sweep_sources(prepared(p, scoops), cap, scoops)[i]
                    == sweep_sources(prepared(p, seq![scoops[j]]), cap, seq![scoops[j]])[i],
{
    lemma_aligned_bounds(p, scoops[0] as int);
    let q = prepared(p, scoops);
    lemma_multi_sweep_from(q, cap, scoops);
    assert forall|i: int| 0 <= i < p.plane_size() implies exists|j: int|
        0 <= j < scoops.len() && #[trigger] sweep_sources(q, cap, scoops)[i] == sweep_sources(
            prepared(p, seq![scoops[j]]),
            cap,
            seq![scoops[j]],
        )[i] by {
        let j = choose|j: int|
            0 <= j < scoops.len() && #[trigger] sweep_sources(q, cap, scoops)[i] == p.plane_start(
                scoops[j] as int,
            ) + q.read_offset + i;
        lemma_single_scoop_sweep(p, scoops[j], cap);
    }
}

/// The entry of `scoops` whose runs hold plane byte `i` of a sweep: the one
/// that the absolute nonce of that byte selects in the cycle of
/// `SCOOPS_IN_NONCE` nonces.
pub open spec fn sweep_slot(p: Plot, scoops: Seq<u32>, i: int) -> int {
    ((p.meta.start_nonce + i / (SCOOP_SIZE as int) + scoops[0]) % (SCOOPS_IN_NONCE as int)) / (
    (SCOOPS_IN_NONCE as int) / (scoops.len() as int))
}

proof fn lemma_slot_matches_sweep(p: Plot, scoops: Seq<u32>, b: int)
    requires
        valid_scoops(scoops),
        p.read_offset % 64 == 0,
        b >= 0,
    ensures
        slot_of(p, scoops, b) == sweep_slot(p, scoops, p.read_offset + b),
{
    let ro = p.read_offset as int;
    let x = p.meta.start_nonce + ro / 64;
    let c = scoops[0] + b / 64;
    assert((ro + b) / 64 == ro / 64 + b / 64) by (nonlinear_arith)
        requires
            ro % 64 == 0,
            ro >= 0,
            b >= 0,
    ;
    let w = 0x1_0000_0000_0000_0000int;
    vstd::arithmetic::div_mod::lemma_fundamental_div_mod(x, w);
    let qw = x / w;
    assert(w * qw == 4096 * (0x10_0000_0000_0000int * qw)) by (nonlinear_arith)
        requires
            w == 0x1_0000_0000_0000_0000int,
    ;
    vstd::arithmetic::div_mod::lemma_mod_multiples_vanish(
        0x10_0000_0000_0000int * (x / w),
        x % w + c,
        4096,
    );
    assert(x + c == 4096 * (0x10_0000_0000_0000int * (x / w)) + (x % w + c));
}

proof fn lemma_multi_sweep_slots_from(p: Plot, cap: int, scoops: Seq<u32>)
    requires
        p.wf(),
        !p.use_direct_io,
        valid_scoops(scoops),
        cap > 0,
        cap % 64 == 0,
        p.read_offset % 64 == 0,
    ensures
        sweep_sources(p, cap, scoops).len() == p.plane_size() - p.read_offset,
        forall|i: int|
            0 <= i < p.plane_size() - p.read_offset ==> #[trigger] sweep_sources(p, cap, scoops)[i]
                == p.plane_start(scoops[sweep_slot(p, scoops, p.read_offset + i)] as int)
                + p.read_offset + i,
    decreases p.plane_size() - p.read_offset,
{
    let c = chunk_sources(p, cap, scoops);
    let m = sweep_sources(p, cap, scoops);
    assert forall|b: int| 0 <= b < c.len() implies #[trigger] c[b] == p.plane_start(
        scoops[sweep_slot(p, scoops, p.read_offset + b)] as int,
    ) + p.read_offset + b by {
        lemma_slot_matches_sweep(p, scoops, b);
    }
    if !is_last_chunk(p, cap) {
        let q = p.at_offset(p.read_offset + cap);
        assert(q.read_offset % 64 == 0) by (nonlinear_arith)
            requires
                q.read_offset == p.read_offset + cap,
                p.read_offset % 64 == 0,
                cap % 64 == 0,
        ;
        lemma_multi_sweep_slots_from(q, cap, scoops);
        let rest = sweep_sources(q, cap, scoops);
        assert(m == c + rest);
        assert forall|i: int| 0 <= i < p.plane_size() - p.read_offset implies #[trigger] m[i]
            == p.plane_start(scoops[sweep_slot(p, scoops, p.read_offset + i)] as int)
            + p.read_offset + i by {
            if i < cap {
                assert(m[i] == c[i]);
            } else {
                assert(m[i] == rest[i - cap]);
                assert(sweep_slot(q, scoops, q.read_offset + (i - cap)) == sweep_slot(
                    p,
                    scoops,
                    p.read_offset + i,
                ));
            }
        }
    }
}

/// With a buffer of whole scoops and without direct I/O, byte `i` of a sweep
/// over several scoops, from where `prepare` leaves the plot, is byte `i` of
/// the single-scoop sweep of the entry that the nonce of byte `i` selects:
/// the runs of each entry, joined, are that entry's own sweep at those nonces.
pub proof fn lemma_multi_scoop_deinterleave(p: Plot, scoops: Seq<u32>, cap: int)
    requires
        p.wf(),
        !p.use_direct_io,
        valid_scoops(scoops),
        cap > 0,
        cap % 64 == 0,
    ensures
        sweep_sources(prepared(p, scoops), cap, scoops).len() == p.plane_size(),
        forall|i: int|
            0 <= i < p.plane_size() ==> 0 <= #[trigger] sweep_slot(p, scoops, i) < scoops.len(),
        forall|i: int|
            0 <= i < p.plane_size() ==> #[trigger] sweep_sources(prepared(p, scoops), cap, scoops)[i]
                == sweep_sources(
                prepared(p, seq![scoops[sweep_slot(p, scoops, i)]]),
                cap,
                seq![scoops[sweep_slot(p, scoops, i)]],
            )[i],
{
    lemma_aligned_bounds(p, scoops[0] as int);
    let q = prepared(p, scoops);
    lemma_multi_sweep_slots_from(q, cap, scoops);
    assert forall|i: int| 0 <= i < p.plane_size() implies 0 <= #[trigger] sweep_slot(p, scoops, i)
        < scoops.len() by {
        lemma_slot_in_range(q, scoops, i);
        lemma_slot_matches_sweep(q, scoops, i);
    }
    assert forall|i: int| 0 <= i < p.plane_size() implies #[trigger] sweep_sources(q, cap, scoops)[i]
        == sweep_sources(
        prepared(p, seq![scoops[sweep_slot(p, scoops, i)]]),
        cap,
        seq![scoops[sweep_slot(p, scoops, i)]],
    )[i] by {
        lemma_slot_in_range(q, scoops, i);
        lemma_slot_matches_sweep(q, scoops, i);
        lemma_single_scoop_sweep(p, scoops[sweep_slot(p, scoops, i)], cap);
    }
}

} // verus!
