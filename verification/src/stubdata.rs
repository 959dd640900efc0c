//! The header the rewriter puts at the start of a guest's `__STUB` segment,
//! as the supervisor reads it.

use vstd::prelude::*;
use crate::bytes;
use crate::bytes::u64_at;
use crate::rewrite;
use crate::rewrite::{HEADER_SIZE, MAGIC};

verus! {

#[derive(Debug, Clone, Copy, PartialEq, Eq, Structural)]
pub struct Info {
    pub sites: u64,
    pub mem_sites: u64,
    pub seed: u64,
}

/// What the header in front of a segment's contents says, if there is one
pub open spec fn said(segment: Seq<u8>) -> Option<Info> {
    if segment.len() < HEADER_SIZE || bytes::at64(segment, 0) != MAGIC {
        None
    } else {
        Some(
            Info {
                sites: bytes::at64(segment, 8),
                mem_sites: bytes::at64(segment, 16),
                seed: bytes::at64(segment, 24),
            },
        )
    }
}

/// Read the header from the contents of a `__STUB` segment.
pub fn find(segment: &[u8]) -> (r: Option<Info>)
    ensures
        r == said(segment@),
{
    if segment.len() < 32 {
        return None;
    }
    match (u64_at(segment, 0), u64_at(segment, 8), u64_at(segment, 16), u64_at(segment, 24)) {
        (Some(magic), Some(sites), Some(mem_sites), Some(seed)) => if magic == MAGIC {
            Some(Info { sites, mem_sites, seed })
        } else {
            None
        },
        _ => None,
    }
}

proof fn lemma_at64(t: Seq<u8>, at: int, v: u64)
    requires
        0 <= at,
        at + 8 <= t.len(),
        t.subrange(at, at + 8) == bytes::le64(v),
    ensures
        bytes::at64(t, at) == v,
{
    let s = t.subrange(at, at + 8);
    assert(t.subrange(at, at + 4) =~= s.subrange(0, 4));
    assert(t.subrange(at + 4, at + 8) =~= s.subrange(4, 8));
    assert(s.subrange(0, 4) =~= bytes::le32((v % 0x1_0000_0000) as u32));
    assert(s.subrange(4, 8) =~= bytes::le32((v / 0x1_0000_0000) as u32));
    bytes::lemma_at32(t, at, (v % 0x1_0000_0000) as u32);
    bytes::lemma_at32(t, at + 4, (v / 0x1_0000_0000) as u32);
}

/// The header the rewriter writes reads back.
pub proof fn a_header_reads_back(w: rewrite::Work, seed: u64)
    ensures
        said(rewrite::stub_text(w, seed)) == Some(
            Info {
                sites: w.built.sites.len() as u64,
                mem_sites: w.counts.mem_sites as u64,
                seed,
            },
        ),
{
    let t = rewrite::stub_text(w, seed);
    assert(t.subrange(0, 8) =~= bytes::le64(MAGIC));
    assert(t.subrange(8, 16) =~= bytes::le64(w.built.sites.len() as u64));
    assert(t.subrange(16, 24) =~= bytes::le64(w.counts.mem_sites as u64));
    assert(t.subrange(24, 32) =~= bytes::le64(seed));
    lemma_at64(t, 0, MAGIC);
    lemma_at64(t, 8, w.built.sites.len() as u64);
    lemma_at64(t, 16, w.counts.mem_sites as u64);
    lemma_at64(t, 24, seed);
}

} // verus!
