//! The stream tee: one byte stream duplicated to two consumers.
//!
//! The gateway's audit layers read a copy of a request or response body
//! while the original flows on. The channel plumbing that carries the two
//! sides lives in the async shell; the logic verified here is what the tee
//! emits: every good chunk is cloned to the side reader, every item — good
//! chunks and the error alike — goes to the primary side unchanged.

use vstd::prelude::*;

verus! {

/// The good chunks of a stream, in order.
pub open spec fn ok_chunks(s: Seq<Result<Vec<u8>, Vec<u8>>>) -> Seq<Seq<u8>>
    decreases s.len(),
{
    if s.len() == 0 {
        Seq::empty()
    } else {
        (match s[0] {
            Ok(c) => seq![c@],
            Err(_) => Seq::empty(),
        }) + ok_chunks(s.drop_first())
    }
}

/// All the bytes of a chunk sequence, concatenated.
pub open spec fn flat_bytes(s: Seq<Seq<u8>>) -> Seq<u8>
    decreases s.len(),
{
    if s.len() == 0 {
        Seq::empty()
    } else {
        s[0] + flat_bytes(s.drop_first())
    }
}

proof fn lemma_ok_chunks_take(s: Seq<Result<Vec<u8>, Vec<u8>>>, k: int)
    requires
        0 <= k < s.len(),
    ensures
        ok_chunks(s.take(k + 1)) =~= ok_chunks(s.take(k)) + (match s[k] {
            Ok(c) => seq![c@],
            Err(_) => Seq::<Seq<u8>>::empty(),
        }),
    decreases k,
{
    if k == 0 {
        assert(s.take(1).drop_first() =~= Seq::<Result<Vec<u8>, Vec<u8>>>::empty());
        assert(s.take(0) =~= Seq::<Result<Vec<u8>, Vec<u8>>>::empty());
        assert(s.take(1)[0] == s[0]);
    } else {
        assert(s.take(k + 1)[0] == s[0]);
        assert(s.take(k + 1).drop_first() =~= s.drop_first().take(k));
        assert(s.take(k)[0] == s[0]);
        assert(s.take(k).drop_first() =~= s.drop_first().take(k - 1));
        lemma_ok_chunks_take(s.drop_first(), k - 1);
        assert(s.drop_first()[k - 1] == s[k]);
    }
}

/// Splits a finished stream the way the tee does: the side reader gets a
/// clone of every good chunk, the primary gets the whole stream back
/// untouched.
pub fn tee_chunks(input: Vec<Result<Vec<u8>, Vec<u8>>>) -> (r: (
    Vec<Vec<u8>>,
    Vec<Result<Vec<u8>, Vec<u8>>>,
))
    ensures
        r.0.deep_view() == ok_chunks(input@),
        r.1 == input,
{
    let mut side: Vec<Vec<u8>> = Vec::new();
    let mut i: usize = 0;
    while i < input.len()
        invariant
            i <= input@.len(),
            side.deep_view() == ok_chunks(input@.take(i as int)),
        decreases input@.len() - i,
    {
        proof {
            lemma_ok_chunks_take(input@, i as int);
        }
        match &input[i] {
            Ok(c) => {
                let ghost before = side.deep_view();
                let copy = crate::json::copy_range(c.as_slice(), 0, c.len());
                proof {
                    assert(copy@ =~= c@);
                }
                side.push(copy);
                proof {
                    assert(side.deep_view() =~~= before + seq![input@[i as int]->Ok_0@]);
                }
            },
            Err(_) => {
                proof {
                    assert(side.deep_view() =~~= ok_chunks(input@.take(i as int + 1)));
                }
            },
        }
        i = i + 1;
    }
    proof {
        assert(input@.take(input@.len() as int) =~= input@);
    }
    (side, input)
}

proof fn lemma_flat_bytes_take(s: Seq<Seq<u8>>, k: int)
    requires
        0 <= k < s.len(),
    ensures
        flat_bytes(s.take(k + 1)) =~= flat_bytes(s.take(k)) + s[k],
    decreases k,
{
    if k == 0 {
        assert(s.take(1).drop_first() =~= Seq::<Seq<u8>>::empty());
        assert(s.take(0) =~= Seq::<Seq<u8>>::empty());
        assert(s.take(1)[0] == s[0]);
    } else {
        assert(s.take(k + 1)[0] == s[0]);
        assert(s.take(k + 1).drop_first() =~= s.drop_first().take(k));
        assert(s.take(k)[0] == s[0]);
        assert(s.take(k).drop_first() =~= s.drop_first().take(k - 1));
        lemma_flat_bytes_take(s.drop_first(), k - 1);
        assert(s.drop_first()[k - 1] == s[k]);
    }
}

/// Joins drained chunks back into one byte buffer: the executable face of
/// [`flat_bytes`], for a consumer that buffered a tee side.
pub fn concat_chunks(chunks: &Vec<Vec<u8>>) -> (r: Vec<u8>)
    ensures
        r@ == flat_bytes(chunks.deep_view()),
{
    let mut out: Vec<u8> = Vec::new();
    let mut i: usize = 0;
    proof {
        assert(chunks.deep_view().take(0) =~= Seq::<Seq<u8>>::empty());
    }
    while i < chunks.len()
        invariant
            i <= chunks@.len(),
            chunks.deep_view().len() == chunks@.len(),
            forall|x: int|
                0 <= x < chunks@.len() ==> chunks.deep_view()[x] == (#[trigger] chunks@[x])@,
            out@ == flat_bytes(chunks.deep_view().take(i as int)),
        decreases chunks@.len() - i,
    {
        proof {
            lemma_flat_bytes_take(chunks.deep_view(), i as int);
        }
        out.extend_from_slice(chunks[i].as_slice());
        i = i + 1;
    }
    proof {
        assert(chunks.deep_view().take(chunks.deep_view().len() as int) =~= chunks.deep_view());
    }
    out
}

/// The tee's two sides agree on the good chunks: the side reader's chunks
/// are exactly the good chunks of the primary side, so the bytes either
/// side delivers for the good prefix are the same.
pub proof fn lemma_tee_sides_agree(
    side: Seq<Seq<u8>>,
    primary: Seq<Result<Vec<u8>, Vec<u8>>>,
    input: Seq<Result<Vec<u8>, Vec<u8>>>,
)
    requires
        side == ok_chunks(input),
        primary == input,
    ensures
        side == ok_chunks(primary),
        flat_bytes(side) == flat_bytes(ok_chunks(primary)),
{
}

} // verus!
