//! Writing a dump: the byte-level encoders of the container format.
use crate::format::{enc_block, enc_blocks, enc_bytes, flatten, valid_blocks};
use crate::le::push_le;
use vstd::prelude::*;

verus! {

/// The largest number of content bytes one block holds.
pub const MAX_BLOCK: usize = 0xFFFF;

/// `c` cut into blocks of `MAX_BLOCK` bytes, the last one possibly shorter.
pub open spec fn chunks_of(c: Seq<u8>) -> Seq<Seq<u8>>
    decreases c.len(),
{
    if c.len() == 0 {
        Seq::empty()
    } else {
        let m = if c.len() < 0xFFFF {
            c.len() as int
        } else {
            0xFFFF
        };
        seq![c.subrange(0, m)] + chunks_of(c.subrange(m, c.len() as int))
    }
}

/// Cutting content into blocks keeps every byte, in order, in valid blocks.
pub proof fn lemma_chunks_of(c: Seq<u8>)
    ensures
        flatten(chunks_of(c)) == c,
        valid_blocks(chunks_of(c)),
    decreases c.len(),
{
    if c.len() > 0 {
        let m = if c.len() < 0xFFFF {
            c.len() as int
        } else {
            0xFFFF
        };
        let rest = c.subrange(m, c.len() as int);
        lemma_chunks_of(rest);
        let cs = chunks_of(c);
        assert(cs.subrange(1, cs.len() as int) =~= chunks_of(rest));
        assert(c.subrange(0, m) + rest =~= c);
        assert forall|i: int| 0 <= i < cs.len() implies 0 < #[trigger] cs[i].len() < 0x1_0000 by {
            if i > 0 {
                assert(cs[i] == chunks_of(rest)[i - 1]);
            }
        }
    } else {
        assert(chunks_of(c) =~= Seq::<Seq<u8>>::empty());
        assert(c =~= Seq::<u8>::empty());
    }
}

/// Appends a byte string: its 8-byte length, then its bytes.
pub fn write_bytes(out: &mut Vec<u8>, data: &[u8])
    ensures
        final(out)@ == old(out)@ + enc_bytes(data@),
{
    push_le(out, data.len() as u64, 8);
    let mut i: usize = 0;
    let ghost mid = out@;
    while i < data.len()
        invariant
            i <= data@.len(),
            out@ == mid + data@.subrange(0, i as int),
        decreases data@.len() - i,
    {
        out.push(data[i]);
        i = i + 1;
        assert(out@ =~= mid + data@.subrange(0, i as int));
    }
    assert(data@.subrange(0, data@.len() as int) =~= data@);
    assert(final(out)@ =~= old(out)@ + enc_bytes(data@));
}

/// Appends one block of content: its 2-byte length, then its bytes.
pub fn write_block(out: &mut Vec<u8>, data: &[u8])
    requires
        data@.len() <= MAX_BLOCK,
    ensures
        final(out)@ == old(out)@ + enc_block(data@),
{
    push_le(out, data.len() as u64, 2);
    let mut i: usize = 0;
    let ghost mid = out@;
    while i < data.len()
        invariant
            i <= data@.len(),
            out@ == mid + data@.subrange(0, i as int),
        decreases data@.len() - i,
    {
        out.push(data[i]);
        i = i + 1;
        assert(out@ =~= mid + data@.subrange(0, i as int));
    }
    assert(data@.subrange(0, data@.len() as int) =~= data@);
    assert(final(out)@ =~= old(out)@ + enc_block(data@));
}

/// Appends the zero-length block that ends a file's content.
pub fn write_eof(out: &mut Vec<u8>)
    ensures
        final(out)@ == old(out)@ + enc_block(Seq::empty()),
{
    push_le(out, 0, 2);
    assert(final(out)@ =~= old(out)@ + enc_block(Seq::empty()));
}

/// Appends the tag and version that open a top-level item.
pub fn write_item_header(out: &mut Vec<u8>, tag: u8, version: u8)
    ensures
        final(out)@ == old(out)@ + seq![tag, version],
{
    out.push(tag);
    out.push(version);
    assert(final(out)@ =~= old(out)@ + seq![tag, version]);
}

/// Appends a file's content as blocks of at most `MAX_BLOCK` bytes, then the
/// sentinel.
pub fn write_content(out: &mut Vec<u8>, content: &[u8])
    ensures
        final(out)@ == old(out)@ + enc_blocks(chunks_of(content@)),
{
    let mut i: usize = 0;
    let ghost c = content@;
    assert(c.subrange(0, c.len() as int) =~= c);
    while i < content.len()
        invariant
            i <= c.len(),
            c == content@,
            old(out)@ + enc_blocks(chunks_of(c)) == out@ + enc_blocks(
                chunks_of(c.subrange(i as int, c.len() as int)),
            ),
        decreases c.len() - i,
    {
        let left = content.len() - i;
        let m: usize = if left < MAX_BLOCK {
            left
        } else {
            MAX_BLOCK
        };
        let ghost s = c.subrange(i as int, c.len() as int);
        let piece = crate::scan::copy_range(content, i, i + m);
        proof {
            assert(piece@ =~= s.subrange(0, m as int));
            assert(s.subrange(m as int, s.len() as int) =~= c.subrange(
                (i + m) as int,
                c.len() as int,
            ));
            let cs = chunks_of(s);
            assert(cs.subrange(1, cs.len() as int) =~= chunks_of(
                s.subrange(m as int, s.len() as int),
            ));
        }
        let ghost before = out@;
        write_block(out, piece.as_slice());
        i = i + m;
        proof {
            let rest = chunks_of(c.subrange(i as int, c.len() as int));
            assert(enc_blocks(chunks_of(s)) == enc_block(piece@) + enc_blocks(rest));
            assert(before + enc_blocks(chunks_of(s)) =~= out@ + enc_blocks(rest));
        }
    }
    assert(c.subrange(i as int, c.len() as int) =~= Seq::<u8>::empty());
    assert(chunks_of(Seq::<u8>::empty()) =~= Seq::<Seq<u8>>::empty());
    write_eof(out);
}

} // verus!
