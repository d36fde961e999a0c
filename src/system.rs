//! The system-wide memory summary (`/proc/meminfo`).
use vstd::prelude::*;
use vstd::slice::{slice_subrange, slice_to_vec};
use vstd::string::StringSliceAdditionalSpecFns;

use crate::error::{outcome, Failure, MemError};
use crate::text::{
    bytes_eq, find_line_end, first_token, has_two_tokens, lemma_line_end_bounds,
    lemma_token_bounds, line_end, lines_from, lines_of, parse_decimal, parse_u64, second_token,
    skip_space, skip_word,
};

verus! {

/// Memory and swap of the whole system, in kB as the kernel reports them.
///
/// The raw fields come straight from the summary; the others are derived
/// from them with exact integer arithmetic, so that a summary whose parts
/// exceed its total (a transient state of the kernel) gives negative values
/// rather than wrapping around.
#[derive(Debug, Clone, Copy)]
pub struct MemoryStats {
    pub total: u64,
    pub free: u64,
    pub available: u64,
    pub shared: u64,
    pub buffers: u64,
    pub cached: u64,
    pub swap_total: u64,
    pub swap_free: u64,
    pub swap_cached: u64,
    /// Size of the pages held in zswap, before compression.
    pub zswap: u64,
    /// Size of the pool that holds them, compressed.
    pub zswap_compressed: u64,
    /// `total - free - buffers - cached`
    pub used: i128,
    /// `swap_total - swap_free`
    pub swap_used: i128,
    /// `total + swap_total`
    pub totalvmem: u128,
    /// `free + swap_free`
    pub freevmem: u128,
    /// `used + swap_used`
    pub usedvmem: i128,
    /// `available + swap_free`
    pub availablevmem: u128,
}

/// The record with every field zero.
pub open spec fn empty_stats() -> MemoryStats {
    MemoryStats {
        total: 0,
        free: 0,
        available: 0,
        shared: 0,
        buffers: 0,
        cached: 0,
        swap_total: 0,
        swap_free: 0,
        swap_cached: 0,
        zswap: 0,
        zswap_compressed: 0,
        used: 0,
        swap_used: 0,
        totalvmem: 0,
        freevmem: 0,
        usedvmem: 0,
        availablevmem: 0,
    }
}

pub open spec fn is_key(k: Seq<u8>, name: &str) -> bool {
    k == name.spec_bytes()
}

/// The keys of the summary that the record holds.
pub open spec fn is_recognized(k: Seq<u8>) -> bool {
    is_key(k, "MemTotal:") || is_key(k, "MemFree:") || is_key(k, "MemAvailable:") || is_key(
        k,
        "Shmem:",
    ) || is_key(k, "Buffers:") || is_key(k, "Cached:") || is_key(k, "SwapTotal:") || is_key(
        k,
        "SwapFree:",
    ) || is_key(k, "SwapCached:") || is_key(k, "Zswap:") || is_key(k, "Zswapped:")
}

/// `m` with the raw field that key `k` names set to `v`.
pub open spec fn set_field(m: MemoryStats, k: Seq<u8>, v: u64) -> MemoryStats {
    if is_key(k, "MemTotal:") {
        MemoryStats { total: v, ..m }
    } else if is_key(k, "MemFree:") {
        MemoryStats { free: v, ..m }
    } else if is_key(k, "MemAvailable:") {
        MemoryStats { available: v, ..m }
    } else if is_key(k, "Shmem:") {
        MemoryStats { shared: v, ..m }
    } else if is_key(k, "Buffers:") {
        MemoryStats { buffers: v, ..m }
    } else if is_key(k, "Cached:") {
        MemoryStats { cached: v, ..m }
    } else if is_key(k, "SwapTotal:") {
        MemoryStats { swap_total: v, ..m }
    } else if is_key(k, "SwapFree:") {
        MemoryStats { swap_free: v, ..m }
    } else if is_key(k, "SwapCached:") {
        MemoryStats { swap_cached: v, ..m }
    } else if is_key(k, "Zswap:") {
        MemoryStats { zswap_compressed: v, ..m }
    } else if is_key(k, "Zswapped:") {
        MemoryStats { zswap: v, ..m }
    } else {
        m
    }
}

/// The raw field of `m` that key `k` names (zero for another key).
pub open spec fn raw_field(m: MemoryStats, k: Seq<u8>) -> u64 {
    if is_key(k, "MemTotal:") {
        m.total
    } else if is_key(k, "MemFree:") {
        m.free
    } else if is_key(k, "MemAvailable:") {
        m.available
    } else if is_key(k, "Shmem:") {
        m.shared
    } else if is_key(k, "Buffers:") {
        m.buffers
    } else if is_key(k, "Cached:") {
        m.cached
    } else if is_key(k, "SwapTotal:") {
        m.swap_total
    } else if is_key(k, "SwapFree:") {
        m.swap_free
    } else if is_key(k, "SwapCached:") {
        m.swap_cached
    } else if is_key(k, "Zswap:") {
        m.zswap_compressed
    } else if is_key(k, "Zswapped:") {
        m.zswap
    } else {
        0
    }
}

/// One line of the summary applied to `m`: a line of fewer than two tokens
/// is malformed, one whose key is not recognized changes nothing, and the
/// value of a recognized key must be an unsigned integer.
pub open spec fn meminfo_line(m: MemoryStats, l: Seq<u8>) -> Result<MemoryStats, Failure> {
    if !has_two_tokens(l) {
        Err(Failure::BadFileFormat)
    } else if !is_recognized(first_token(l)) {
        Ok(m)
    } else {
        match parse_u64(second_token(l)) {
            Some(v) => Ok(set_field(m, first_token(l), v)),
            None => Err(Failure::InvalidNumber(l)),
        }
    }
}

/// The lines applied in order to `m`; the first failure ends the pass.
pub open spec fn meminfo_lines(m: MemoryStats, ls: Seq<Seq<u8>>) -> Result<MemoryStats, Failure>
    decreases ls.len(),
{
    if ls.len() == 0 {
        Ok(m)
    } else {
        match meminfo_lines(m, ls.drop_last()) {
            Ok(m1) => meminfo_line(m1, ls.last()),
            Err(f) => Err(f),
        }
    }
}

/// The raw record that a whole summary gives.
pub open spec fn parse_meminfo(t: Seq<u8>) -> Result<MemoryStats, Failure> {
    meminfo_lines(empty_stats(), lines_of(t))
}

/// `m` with its derived fields computed from its raw ones.
pub open spec fn with_derived(m: MemoryStats) -> MemoryStats {
    let used = m.total - m.free - m.buffers - m.cached;
    let swap_used = m.swap_total - m.swap_free;
    MemoryStats {
        used: used as i128,
        swap_used: swap_used as i128,
        totalvmem: (m.total + m.swap_total) as u128,
        freevmem: (m.free + m.swap_free) as u128,
        usedvmem: (used + swap_used) as i128,
        availablevmem: (m.available + m.swap_free) as u128,
        ..m
    }
}

proof fn lemma_failure_persists(m: MemoryStats, a: Seq<Seq<u8>>, b: Seq<Seq<u8>>)
    requires
        meminfo_lines(m, a) is Err,
    ensures
        meminfo_lines(m, a + b) == meminfo_lines(m, a),
    decreases b.len(),
{
    if b.len() == 0 {
        assert(a + b =~= a);
    } else {
        lemma_failure_persists(m, a, b.drop_last());
        assert((a + b).drop_last() =~= a + b.drop_last());
    }
}

/// A key given twice keeps the value of its last line: the earlier line of
/// the two has no effect on the record, and the field holds the later value.
pub proof fn lemma_last_line_wins(
    m: MemoryStats,
    ls: Seq<Seq<u8>>,
    l1: Seq<u8>,
    l2: Seq<u8>,
)
    requires
        has_two_tokens(l1),
        has_two_tokens(l2),
        first_token(l1) == first_token(l2),
        is_recognized(first_token(l1)),
        parse_u64(second_token(l1)) is Some,
        parse_u64(second_token(l2)) is Some,
        meminfo_lines(m, ls) is Ok,
    ensures
        meminfo_lines(m, ls.push(l1).push(l2)) == meminfo_lines(m, ls.push(l2)),
        meminfo_lines(m, ls.push(l1).push(l2)) matches Ok(r) && raw_field(r, first_token(l2))
            == parse_u64(second_token(l2))->0,
{
    let k = first_token(l1);
    let v1 = parse_u64(second_token(l1))->0;
    let v2 = parse_u64(second_token(l2))->0;
    let m0 = meminfo_lines(m, ls)->Ok_0;
    assert(ls.push(l1).push(l2).drop_last() =~= ls.push(l1));
    assert(ls.push(l1).drop_last() =~= ls);
    assert(ls.push(l2).drop_last() =~= ls);
    assert(meminfo_lines(m, ls.push(l1)) == Ok::<MemoryStats, Failure>(set_field(m0, k, v1)));
    lemma_set_field_twice(m0, k, v1, v2);
    assert(meminfo_lines(m, ls.push(l2)) == Ok::<MemoryStats, Failure>(set_field(m0, k, v2)));
}

proof fn lemma_set_field_twice(m: MemoryStats, k: Seq<u8>, v1: u64, v2: u64)
    requires
        is_recognized(k),
    ensures
        set_field(set_field(m, k, v1), k, v2) == set_field(m, k, v2),
        raw_field(set_field(m, k, v2), k) == v2,
{
}

/// Two lines with different keys may trade places: the summary gives the
/// same record either way.
pub proof fn lemma_distinct_lines_commute(
    m: MemoryStats,
    ls: Seq<Seq<u8>>,
    l1: Seq<u8>,
    l2: Seq<u8>,
)
    requires
        meminfo_lines(m, ls.push(l1).push(l2)) is Ok,
        first_token(l1) != first_token(l2),
    ensures
        meminfo_lines(m, ls.push(l1).push(l2)) == meminfo_lines(m, ls.push(l2).push(l1)),
{
    assert(ls.push(l1).push(l2).drop_last() =~= ls.push(l1));
    assert(ls.push(l2).push(l1).drop_last() =~= ls.push(l2));
    assert(ls.push(l1).drop_last() =~= ls);
    assert(ls.push(l2).drop_last() =~= ls);
    let m0 = meminfo_lines(m, ls)->Ok_0;
    let m1 = meminfo_line(m0, l1)->Ok_0;
    assert(meminfo_lines(m, ls.push(l1)) == Ok::<MemoryStats, Failure>(m1));
    assert(meminfo_line(m1, l2) is Ok);
    assert(meminfo_line(m0, l2) is Ok);
    let m2 = meminfo_line(m0, l2)->Ok_0;
    assert(meminfo_lines(m, ls.push(l2)) == Ok::<MemoryStats, Failure>(m2));
    assert(meminfo_line(m2, l1) is Ok);
    let (k1, k2) = (first_token(l1), first_token(l2));
    if is_recognized(k1) && is_recognized(k2) {
        let v1 = parse_u64(second_token(l1))->0;
        let v2 = parse_u64(second_token(l2))->0;
        assert(m1 == set_field(m0, k1, v1));
        assert(m2 == set_field(m0, k2, v2));
        lemma_set_fields_commute(m0, k1, k2, v1, v2);
    }
}

proof fn lemma_set_fields_commute(
    m: MemoryStats,
    k1: Seq<u8>,
    k2: Seq<u8>,
    v1: u64,
    v2: u64,
)
    requires
        k1 != k2,
    ensures
        set_field(set_field(m, k1, v1), k2, v2) == set_field(set_field(m, k2, v2), k1, v1),
{
}

/// Lines whose keys are all unrecognized leave the record as it was; in
/// particular a summary without any recognized key gives the all-zero
/// record.
pub proof fn lemma_unrecognized_lines_keep_record(m: MemoryStats, ls: Seq<Seq<u8>>)
    requires
        forall|i: int|
            0 <= i < ls.len() ==> has_two_tokens(#[trigger] ls[i]) && !is_recognized(
                first_token(ls[i]),
            ),
    ensures
        meminfo_lines(m, ls) == Ok::<MemoryStats, Failure>(m),
    decreases ls.len(),
{
    if ls.len() > 0 {
        let front = ls.drop_last();
        assert forall|i: int| 0 <= i < front.len() implies has_two_tokens(#[trigger] front[i])
            && !is_recognized(first_token(front[i])) by {
            assert(front[i] == ls[i]);
        }
        lemma_unrecognized_lines_keep_record(m, front);
        assert(ls.last() == ls[ls.len() - 1]);
    }
}

/// The derived fields of the all-zero record are zero.
pub proof fn lemma_zero_record_derives_zero()
    ensures
        with_derived(empty_stats()) == empty_stats(),
{
}

/// Whether `k` is one of the keys that the record holds.
fn recognized(k: &[u8]) -> (r: bool)
    ensures
        r == is_recognized(k@),
{
    bytes_eq(k, "MemTotal:".as_bytes()) || bytes_eq(k, "MemFree:".as_bytes()) || bytes_eq(
        k,
        "MemAvailable:".as_bytes(),
    ) || bytes_eq(k, "Shmem:".as_bytes()) || bytes_eq(k, "Buffers:".as_bytes()) || bytes_eq(
        k,
        "Cached:".as_bytes(),
    ) || bytes_eq(k, "SwapTotal:".as_bytes()) || bytes_eq(k, "SwapFree:".as_bytes()) || bytes_eq(
        k,
        "SwapCached:".as_bytes(),
    ) || bytes_eq(k, "Zswap:".as_bytes()) || bytes_eq(k, "Zswapped:".as_bytes())
}

/// `m` with the raw field that `k` names set to `v`.
fn assign_field(m: MemoryStats, k: &[u8], v: u64) -> (r: MemoryStats)
    ensures
        r == set_field(m, k@, v),
{
    let mut r = m;
    if bytes_eq(k, "MemTotal:".as_bytes()) {
        r.total = v;
    } else if bytes_eq(k, "MemFree:".as_bytes()) {
        r.free = v;
    } else if bytes_eq(k, "MemAvailable:".as_bytes()) {
        r.available = v;
    } else if bytes_eq(k, "Shmem:".as_bytes()) {
        r.shared = v;
    } else if bytes_eq(k, "Buffers:".as_bytes()) {
        r.buffers = v;
    } else if bytes_eq(k, "Cached:".as_bytes()) {
        r.cached = v;
    } else if bytes_eq(k, "SwapTotal:".as_bytes()) {
        r.swap_total = v;
    } else if bytes_eq(k, "SwapFree:".as_bytes()) {
        r.swap_free = v;
    } else if bytes_eq(k, "SwapCached:".as_bytes()) {
        r.swap_cached = v;
    } else if bytes_eq(k, "Zswap:".as_bytes()) {
        r.zswap_compressed = v;
    } else if bytes_eq(k, "Zswapped:".as_bytes()) {
        r.zswap = v;
    }
    r
}

/// Applies one line of the summary to `m`.
fn apply_line(m: MemoryStats, l: &[u8]) -> (r: Result<MemoryStats, MemError>)
    ensures
        outcome(r) == meminfo_line(m, l@),
{
    proof {
        lemma_token_bounds(l@, 0);
    }
    let s1 = skip_space(l, 0);
    let e1 = skip_word(l, s1);
    proof {
        lemma_token_bounds(l@, e1 as int);
    }
    let s2 = skip_space(l, e1);
    if s2 >= l.len() {
        return Err(MemError::BadFileFormat);
    }
    let e2 = skip_word(l, s2);
    let key = slice_subrange(l, s1, e1);
    if !recognized(key) {
        return Ok(m);
    }
    let value = slice_subrange(l, s2, e2);
    match parse_decimal(value) {
        Some(v) => Ok(assign_field(m, key, v)),
        None => Err(MemError::InvalidNumber(slice_to_vec(l))),
    }
}

impl MemoryStats {
    /// A record with every field zero.
    pub fn new() -> (r: Self)
        ensures
            r == empty_stats(),
    {
        MemoryStats {
            total: 0,
            free: 0,
            available: 0,
            shared: 0,
            buffers: 0,
            cached: 0,
            swap_total: 0,
            swap_free: 0,
            swap_cached: 0,
            zswap: 0,
            zswap_compressed: 0,
            used: 0,
            swap_used: 0,
            totalvmem: 0,
            freevmem: 0,
            usedvmem: 0,
            availablevmem: 0,
        }
    }

    /// Computes the derived fields from the raw ones.
    fn derive(raw: MemoryStats) -> (r: MemoryStats)
        ensures
            r == with_derived(raw),
    {
        let used: i128 = raw.total as i128 - raw.free as i128 - raw.buffers as i128
            - raw.cached as i128;
        let swap_used: i128 = raw.swap_total as i128 - raw.swap_free as i128;
        MemoryStats {
            used,
            swap_used,
            totalvmem: raw.total as u128 + raw.swap_total as u128,
            freevmem: raw.free as u128 + raw.swap_free as u128,
            usedvmem: used + swap_used,
            availablevmem: raw.available as u128 + raw.swap_free as u128,
            ..raw
        }
    }

    /// Fills the record from the whole text of the system summary, one
    /// `<Key>: <value> kB` line per metric. Keys absent from the text leave
    /// their field zero; a repeated key keeps its last value. On failure the
    /// record is left as it was.
    pub fn update(&mut self, contents: &[u8]) -> (r: Result<(), MemError>)
        ensures
            match parse_meminfo(contents@) {
                Ok(raw) => r is Ok && *final(self) == with_derived(raw),
                Err(f) => {
                    &&& r is Err
                    &&& outcome(r) == Err::<(), Failure>(f)
                    &&& *final(self) == *old(self)
                },
            },
            r is Ok ==> {
                let s = *final(self);
                &&& s.used + s.free + s.buffers + s.cached == s.total
                &&& s.swap_used + s.swap_free == s.swap_total
                &&& s.totalvmem == s.total + s.swap_total
                &&& s.freevmem == s.free + s.swap_free
                &&& s.usedvmem == s.used + s.swap_used
                &&& s.availablevmem == s.available + s.swap_free
            },
    {
        let n = contents.len();
        let mut acc = MemoryStats::new();
        let mut pos: usize = 0;
        let ghost done: Seq<Seq<u8>> = Seq::empty();
        assert(lines_of(contents@) =~= done + lines_from(contents@, 0));
        while pos < n
            invariant
                pos <= n,
                n == contents@.len(),
                lines_of(contents@) == done + lines_from(contents@, pos as int),
                meminfo_lines(empty_stats(), done) == Ok::<MemoryStats, Failure>(acc),
            decreases n - pos,
        {
            let e = find_line_end(contents, pos);
            proof {
                lemma_line_end_bounds(contents@, pos as int);
            }
            let line = slice_subrange(contents, pos, e);
            let ghost rest = lines_from(contents@, e + 1);
            assert(lines_from(contents@, pos as int) == seq![line@] + rest);
            assert(done + (seq![line@] + rest) =~= done.push(line@) + rest);
            assert(done.push(line@).drop_last() =~= done);
            match apply_line(acc, line) {
                Ok(m2) => {
                    acc = m2;
                },
                Err(err) => {
                    proof {
                        lemma_failure_persists(empty_stats(), done.push(line@), rest);
                    }
                    return Err(err);
                },
            }
            proof {
                done = done.push(line@);
            }
            if e < n {
                pos = e + 1;
            } else {
                assert(rest =~= lines_from(contents@, n as int));
                pos = n;
            }
        }
        assert(done + lines_from(contents@, pos as int) =~= done);
        *self = MemoryStats::derive(acc);
        Ok(())
    }
}

} // verus!
