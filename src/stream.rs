use vstd::prelude::*;
use vstd::slice::slice_subrange;

use crate::codec::{
    decode, decoded, encode, encoded, join, lemma_decode_words_append, lemma_encode_append,
    lemma_join_push, lemma_split_separator, split,
};

verus! {

/// How many bytes the streaming encoder reads at a time.
pub const CHUNK_SIZE: usize = 1024;

/// std's I/O error, carried through the streams unchanged.
#[verifier::external_type_specification]
#[verifier::external_body]
pub struct ExIoError(std::io::Error);

/// Relies on `std::io::Read::read`: it fills a prefix of `buf`, whose length
/// stays, and reports a count. The count is checked against the buffer by
/// the caller, as std's documentation asks.
#[verifier::external_body]
fn read_chunk<R: std::io::Read>(src: &mut R, buf: &mut [u8]) -> (r: std::io::Result<usize>)
    ensures
        final(buf)@.len() == old(buf)@.len(),
{
    src.read(buf)
}

/// Relies on `std::io::BufRead::read_line`: it appends what it reads to `buf`.
#[verifier::external_body]
fn read_line<R: std::io::BufRead>(src: &mut R, buf: &mut String) -> (r: std::io::Result<usize>)
    ensures
        old(buf)@.is_prefix_of(final(buf)@),
        r matches Ok(n) ==> (n == 0 <==> final(buf)@ == old(buf)@),
{
    src.read_line(buf)
}

/// Relies on `std::io::Error::new`: an error of kind `Other` with `message`,
/// which ends a stream that cannot go on.
#[verifier::external_body]
fn stream_error(message: &'static str) -> std::io::Error {
    std::io::Error::new(std::io::ErrorKind::Other, message)
}

/// Relies on `std::io::Write::write_all`, which writes the whole of `bytes`
/// or fails.
#[verifier::external_body]
fn write_bytes<W: std::io::Write>(sink: &mut W, bytes: &[u8]) -> (r: std::io::Result<()>) {
    sink.write_all(bytes)
}

/// The text that the streaming encoder writes when its reads bring `chunks`
/// in turn: what `encode_step` writes for each chunk, put side by side with
/// no separator between them.
pub open spec fn stream_encoded(chunks: Seq<Seq<u8>>) -> Seq<char>
    decreases chunks.len(),
{
    if chunks.len() == 0 {
        seq![]
    } else {
        stream_encoded(chunks.drop_last()) + encoded(chunks.last())
    }
}

/// The bytes that the streaming decoder writes when its reads bring `lines`
/// in turn: what `decode_step` writes for each line, put side by side.
pub open spec fn stream_decoded(lines: Seq<Seq<char>>) -> Seq<u8>
    decreases lines.len(),
{
    if lines.len() == 0 {
        seq![]
    } else {
        stream_decoded(lines.drop_last()) + decoded(lines.last())
    }
}

/// What a stream does after one read.
pub enum StreamStep<T> {
    /// The read reported the end of input: the stream ends successfully.
    End,
    /// The input has grown past `u64::MAX` bytes: the stream ends with an
    /// error.
    TooLong,
    /// The value is written to the sink and the stream reads on.
    Write(T),
}

/// What the streaming encoder does after a read that reported `n` bytes into
/// `buf`, with `total` bytes read before: stop at a count of zero, fail once
/// the input no longer fits in a `u64`, and otherwise write the encoding of
/// the first `n` bytes of `buf`.
pub fn encode_step(buf: &[u8], n: usize, total: u64) -> (r: StreamStep<String>)
    requires
        n <= buf@.len(),
    ensures
        n == 0 <==> r is End,
        n > 0 && n > u64::MAX - total ==> r is TooLong,
        n > 0 && n <= u64::MAX - total ==> (r matches StreamStep::Write(t) && t@ == encoded(
            buf@.subrange(0, n as int),
        )),
{
    if n == 0 {
        StreamStep::End
    } else if n as u64 > u64::MAX - total {
        StreamStep::TooLong
    } else {
        StreamStep::Write(encode(slice_subrange(buf, 0, n)))
    }
}

/// What the streaming decoder does after a read that reported `n` bytes
/// making up `line`, with `total` bytes read before: stop at a count of zero,
/// fail once the input no longer fits in a `u64`, and otherwise write the
/// bytes that the line decodes to.
pub fn decode_step(line: &str, n: usize, total: u64) -> (r: StreamStep<Vec<u8>>)
    ensures
        n == 0 <==> r is End,
        n > 0 && n > u64::MAX - total ==> r is TooLong,
        n > 0 && n <= u64::MAX - total ==> (r matches StreamStep::Write(b) && b@ == decoded(
            line@,
        )),
{
    if n == 0 {
        StreamStep::End
    } else if n as u64 > u64::MAX - total {
        StreamStep::TooLong
    } else {
        StreamStep::Write(decode(line))
    }
}

/// The text that the streaming encoder writes for `chunks` is the texts it
/// hands to the sink, one for each chunk, put side by side.
pub proof fn lemma_stream_encoded_flatten(chunks: Seq<Seq<u8>>)
    ensures
        stream_encoded(chunks) == chunk_encodings(chunks).flatten(),
    decreases chunks.len(),
{
    if chunks.len() > 0 {
        let p = chunks.drop_last();
        lemma_stream_encoded_flatten(p);
        assert(chunk_encodings(chunks) =~= chunk_encodings(p).push(encoded(chunks.last())));
        chunk_encodings(p).lemma_flatten_push(encoded(chunks.last()));
    } else {
        assert(chunk_encodings(chunks) =~= Seq::<Seq<char>>::empty());
    }
}

/// The decodings of `lines`, one for each line.
pub open spec fn line_decodings(lines: Seq<Seq<char>>) -> Seq<Seq<u8>> {
    Seq::new(lines.len(), |i: int| decoded(lines[i]))
}

/// The bytes that the streaming decoder writes for `lines` are the byte
/// sequences it hands to the sink, one for each line, put side by side.
pub proof fn lemma_stream_decoded_flatten(lines: Seq<Seq<char>>)
    ensures
        stream_decoded(lines) == line_decodings(lines).flatten(),
    decreases lines.len(),
{
    if lines.len() > 0 {
        let p = lines.drop_last();
        lemma_stream_decoded_flatten(p);
        assert(line_decodings(lines) =~= line_decodings(p).push(decoded(lines.last())));
        line_decodings(p).lemma_flatten_push(decoded(lines.last()));
    } else {
        assert(line_decodings(lines) =~= Seq::<Seq<u8>>::empty());
    }
}

/// Reads `src` in chunks of at most `CHUNK_SIZE` bytes until it reports the
/// end of input, and writes the encoding of each chunk to `sink` as it comes
/// (see `encode_step`). A failure to read or write ends the stream at once
/// with that error, as do an input longer than `u64::MAX` bytes and a read
/// that reports more bytes than the buffer holds.
///
/// Besides the result it returns, as ghost values, the chunks that the
/// successful reads brought, in order, and the texts handed to the sink, in
/// order: the k-th text is the encoding of the k-th chunk, and every chunk
/// but the last is non-empty. The stream succeeds only after a read of zero
/// bytes, each earlier chunk's text having been written, so that what it
/// wrote is `stream_encoded` of those chunks.
pub fn encode_stream<R: std::io::Read, W: std::io::Write>(
    src: &mut R,
    sink: &mut W,
) -> (r: (std::io::Result<()>, Ghost<Seq<Seq<u8>>>, Ghost<Seq<Seq<char>>>))
    ensures
        r.2@.len() <= r.1@.len(),
        forall|k: int| 0 <= k < r.2@.len() ==> #[trigger] r.2@[k] == encoded(r.1@[k]),
        forall|k: int| 0 <= k < r.1@.len() ==> #[trigger] r.1@[k].len() <= CHUNK_SIZE,
        forall|k: int| 0 <= k < r.1@.len() - 1 ==> #[trigger] r.1@[k].len() > 0,
        r.0 is Ok ==> r.1@.len() == r.2@.len() + 1 && r.1@.last().len() == 0 && r.2@.flatten()
            == stream_encoded(r.1@.drop_last()),
{
    let mut buf = [0u8; CHUNK_SIZE];
    let mut total: u64 = 0;
    let ghost mut chunks: Seq<Seq<u8>> = seq![];
    let ghost mut texts: Seq<Seq<char>> = seq![];
    loop
        invariant
            buf@.len() == CHUNK_SIZE,
            chunks.len() == texts.len(),
            forall|k: int| 0 <= k < texts.len() ==> #[trigger] texts[k] == encoded(chunks[k]),
            forall|k: int| 0 <= k < chunks.len() ==> #[trigger] chunks[k].len() <= CHUNK_SIZE,
            forall|k: int| 0 <= k < chunks.len() ==> #[trigger] chunks[k].len() > 0,
            texts.flatten() == stream_encoded(chunks),
        decreases u64::MAX - total,
    {
        let n = match read_chunk(src, &mut buf) {
            Ok(n) => n,
            Err(e) => return (Err(e), Ghost(chunks), Ghost(texts)),
        };
        if n > buf.len() {
            return (
                Err(stream_error("read reported more bytes than the buffer holds")),
                Ghost(chunks),
                Ghost(texts),
            );
        }
        let ghost chunk = buf@.subrange(0, n as int);
        proof {
            assert(chunks.push(chunk).drop_last() =~= chunks);
            chunks = chunks.push(chunk);
        }
        match encode_step(&buf, n, total) {
            StreamStep::End => return (Ok(()), Ghost(chunks), Ghost(texts)),
            StreamStep::TooLong => {
                return (
                    Err(stream_error("input longer than u64::MAX bytes")),
                    Ghost(chunks),
                    Ghost(texts),
                );
            },
            StreamStep::Write(text) => {
                proof {
                    texts.lemma_flatten_push(text@);
                    texts = texts.push(text@);
                }
                if let Err(e) = write_bytes(sink, text.as_str().as_bytes()) {
                    return (Err(e), Ghost(chunks), Ghost(texts));
                }
            },
        }
        total = total + n as u64;
    }
}

/// Reads `src` line by line until it reports the end of input, and writes
/// the bytes that each line decodes to to `sink` as it comes (see
/// `decode_step`). A line is decoded on its own, as read, its terminator
/// included. A failure to read or write ends the stream at once with that
/// error, as does an input longer than `u64::MAX` bytes.
///
/// Besides the result it returns, as ghost values, the lines that the
/// successful reads brought, in order, and the byte sequences handed to the
/// sink, in order: the k-th is the decoding of the k-th line, and every line
/// but the last is non-empty. The stream succeeds only after a read of zero
/// bytes, each earlier line's bytes having been written, so that what it
/// wrote is `stream_decoded` of those lines.
pub fn decode_stream<R: std::io::BufRead, W: std::io::Write>(
    src: &mut R,
    sink: &mut W,
) -> (r: (std::io::Result<()>, Ghost<Seq<Seq<char>>>, Ghost<Seq<Seq<u8>>>))
    ensures
        r.2@.len() <= r.1@.len(),
        forall|k: int| 0 <= k < r.2@.len() ==> #[trigger] r.2@[k] == decoded(r.1@[k]),
        forall|k: int| 0 <= k < r.1@.len() - 1 ==> #[trigger] r.1@[k].len() > 0,
        r.0 is Ok ==> r.1@.len() == r.2@.len() + 1 && r.1@.last().len() == 0 && r.2@.flatten()
            == stream_decoded(r.1@.drop_last()),
{
    let mut total: u64 = 0;
    let ghost mut lines: Seq<Seq<char>> = seq![];
    let ghost mut outputs: Seq<Seq<u8>> = seq![];
    loop
        invariant
            lines.len() == outputs.len(),
            forall|k: int| 0 <= k < outputs.len() ==> #[trigger] outputs[k] == decoded(lines[k]),
            forall|k: int| 0 <= k < lines.len() ==> #[trigger] lines[k].len() > 0,
            outputs.flatten() == stream_decoded(lines),
        decreases u64::MAX - total,
    {
        let mut line = String::new();
        let n = match read_line(src, &mut line) {
            Ok(n) => n,
            Err(e) => return (Err(e), Ghost(lines), Ghost(outputs)),
        };
        proof {
            assert(lines.push(line@).drop_last() =~= lines);
            lines = lines.push(line@);
        }
        match decode_step(line.as_str(), n, total) {
            StreamStep::End => return (Ok(()), Ghost(lines), Ghost(outputs)),
            StreamStep::TooLong => {
                return (
                    Err(stream_error("input longer than u64::MAX bytes")),
                    Ghost(lines),
                    Ghost(outputs),
                );
            },
            StreamStep::Write(bytes) => {
                proof {
                    if line@.len() == 0 {
                        assert(line@ =~= Seq::<char>::empty());
                    }
                    outputs.lemma_flatten_push(bytes@);
                    outputs = outputs.push(bytes@);
                }
                if let Err(e) = write_bytes(sink, bytes.as_slice()) {
                    return (Err(e), Ghost(lines), Ghost(outputs));
                }
            },
        }
        total = total + n as u64;
    }
}

/// The bytes of `chunks` read in turn, put side by side.
pub open spec fn concat_chunks(chunks: Seq<Seq<u8>>) -> Seq<u8>
    decreases chunks.len(),
{
    if chunks.len() == 0 {
        seq![]
    } else {
        concat_chunks(chunks.drop_last()) + chunks.last()
    }
}

/// The encodings of `chunks`, one for each chunk.
pub open spec fn chunk_encodings(chunks: Seq<Seq<u8>>) -> Seq<Seq<char>> {
    Seq::new(chunks.len(), |i: int| encoded(chunks[i]))
}

/// Input that arrives as one chunk is written exactly as `encode` writes it.
pub proof fn lemma_stream_encode_one_chunk(data: Seq<u8>)
    ensures
        stream_encoded(seq![data]) == encoded(data),
{
    let c = seq![data];
    assert(c.drop_last() =~= Seq::<Seq<u8>>::empty());
    assert(stream_encoded(c.drop_last()) == Seq::<char>::empty());
    assert(Seq::<char>::empty() + encoded(data) =~= encoded(data));
}

/// Input that arrives in several non-empty chunks: the streaming encoder
/// writes the chunks' encodings side by side, while encoding the whole input
/// at once joins the same encodings with one separator between chunks.
pub proof fn lemma_stream_encode_chunks(chunks: Seq<Seq<u8>>)
    requires
        chunks.len() > 0,
        forall|k: int| 0 <= k < chunks.len() ==> #[trigger] chunks[k].len() > 0,
    ensures
        encoded(concat_chunks(chunks)) == join(chunk_encodings(chunks)),
        stream_encoded(chunks) == chunk_encodings(chunks).flatten(),
        concat_chunks(chunks).len() > 0,
    decreases chunks.len(),
{
    let p = chunks.drop_last();
    let c = chunks.last();
    if chunks.len() == 1 {
        assert(p =~= seq![]);
        assert(concat_chunks(chunks) =~= c);
        assert(chunk_encodings(chunks) =~= seq![encoded(c)]);
        lemma_stream_encode_one_chunk(c);
        assert(chunks =~= seq![c]);
        let one = seq![encoded(c)];
        assert(one.drop_first() =~= Seq::<Seq<char>>::empty());
        assert(one.drop_first().flatten() == Seq::<char>::empty());
        assert(one.flatten() =~= encoded(c));
    } else {
        lemma_stream_encode_chunks(p);
        lemma_encode_append(concat_chunks(p), c);
        assert(chunk_encodings(chunks) =~= chunk_encodings(p).push(encoded(c)));
        lemma_join_push(chunk_encodings(p), encoded(c));
        chunk_encodings(p).lemma_flatten_push(encoded(c));
    }
}

/// Lines that each hold an even number of words: the streaming decoder
/// writes the same bytes as decoding the lines joined by single separators.
pub proof fn lemma_stream_decode_lines(lines: Seq<Seq<char>>)
    requires
        lines.len() > 0,
        forall|k: int| 0 <= k < lines.len() ==> #[trigger] split(lines[k]).len() % 2 == 0,
    ensures
        decoded(join(lines)) == stream_decoded(lines),
        split(join(lines)).len() % 2 == 0,
    decreases lines.len(),
{
    let p = lines.drop_last();
    let l = lines.last();
    if lines.len() == 1 {
        assert(p =~= Seq::<Seq<char>>::empty());
        assert(stream_decoded(p) == Seq::<u8>::empty());
        assert(Seq::<u8>::empty() + decoded(l) =~= decoded(l));
    } else {
        lemma_stream_decode_lines(p);
        lemma_split_separator(join(p), l);
        lemma_decode_words_append(split(join(p)), split(l));
    }
}

} // verus!
