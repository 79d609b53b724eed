//! The byte model of one splice direction.
//!
//! The splice copies bytes between two streams until one side ends. Its
//! integrity rule — the peer receives exactly the source's bytes, in the
//! order read, and copying stops cleanly at the first empty read — is stated
//! and proved here over the recorded reads; the loop around real sockets
//! repeats this step with I/O in place of the record.

use vstd::prelude::*;

verus! {

/// The byte strings of a recorded sequence of reads.
pub open spec fn views_of(chunks: Seq<Vec<u8>>) -> Seq<Seq<u8>> {
    Seq::new(chunks.len(), |i: int| chunks[i]@)
}

/// The bytes that one direction delivers: the reads concatenated in order,
/// up to and not including the first empty read (the end of the stream).
pub open spec fn delivered(chunks: Seq<Seq<u8>>) -> Seq<u8>
    decreases chunks.len(),
{
    if chunks.len() == 0 || chunks[0].len() == 0 {
        Seq::empty()
    } else {
        chunks[0] + delivered(chunks.skip(1))
    }
}

/// One direction of the splice over a recorded sequence of reads: every read
/// is written through whole and in order, and copying stops at the first
/// empty read.
pub fn pump_chunks(chunks: &Vec<Vec<u8>>) -> (out: Vec<u8>)
    ensures
        out@ == delivered(views_of(chunks@)),
{
    let ghost whole = delivered(views_of(chunks@));
    let mut out: Vec<u8> = Vec::new();
    let mut i: usize = 0;
    proof {
        assert(views_of(chunks@).skip(0) =~= views_of(chunks@));
        assert(Seq::<u8>::empty() + whole =~= whole);
    }
    loop
        invariant_except_break
            i <= chunks@.len(),
            whole == delivered(views_of(chunks@)),
            whole == out@ + delivered(views_of(chunks@).skip(i as int)),
        ensures
            out@ == whole,
        decreases chunks@.len() - i,
    {
        if i >= chunks.len() {
            proof {
                assert(views_of(chunks@).skip(i as int) =~= Seq::<Seq<u8>>::empty());
                assert(out@ + Seq::<u8>::empty() =~= out@);
            }
            break;
        }
        let n = chunks[i].len();
        let ghost rest = views_of(chunks@).skip(i as int);
        proof {
            assert(rest[0] == chunks@[i as int]@);
        }
        if n == 0 {
            proof {
                assert(delivered(rest) == Seq::<u8>::empty());
                assert(out@ + Seq::<u8>::empty() =~= out@);
            }
            break;
        }
        let ghost before = out@;
        let mut t: usize = 0;
        while t < n
            invariant
                t <= n,
                i < chunks@.len(),
                n == chunks@[i as int]@.len(),
                out@ == before + chunks@[i as int]@.subrange(0, t as int),
            decreases n - t,
        {
            proof {
                assert(before + chunks@[i as int]@.subrange(0, t as int + 1)
                    =~= (before + chunks@[i as int]@.subrange(0, t as int)).push(
                    chunks@[i as int]@[t as int],
                ));
            }
            let b = chunks[i][t];
            out.push(b);
            t = t + 1;
        }
        proof {
            assert(chunks@[i as int]@.subrange(0, n as int) =~= chunks@[i as int]@);
            assert(rest.skip(1) =~= views_of(chunks@).skip(i as int + 1));
            assert(delivered(rest) == chunks@[i as int]@ + delivered(
                views_of(chunks@).skip(i as int + 1),
            ));
            assert(before + (chunks@[i as int]@ + delivered(views_of(chunks@).skip(i as int + 1)))
                =~= (before + chunks@[i as int]@) + delivered(
                views_of(chunks@).skip(i as int + 1),
            ));
        }
        i = i + 1;
    }
    out
}

} // verus!
