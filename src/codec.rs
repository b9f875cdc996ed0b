use vstd::prelude::*;
use vstd::std_specs::iter::IteratorSpec;
use vstd::string::StringExecFns;

use crate::vocab::{decode_word, lemma_nibble_of_word, nibble_value, word, word_for};

verus! {

/// The words that encode `data`: for each byte in order, the word of its high
/// nibble, then that of its low nibble.
pub open spec fn words_of(data: Seq<u8>) -> Seq<Seq<char>> {
    Seq::new(
        2 * data.len(),
        |i: int|
            if i % 2 == 0 {
                word(data[i / 2] >> 4)
            } else {
                word(data[i / 2] & 15)
            },
    )
}

/// The words `ws` joined by single spaces, with no leading or trailing space.
pub open spec fn join(ws: Seq<Seq<char>>) -> Seq<char>
    decreases ws.len(),
{
    if ws.len() == 0 {
        seq![]
    } else if ws.len() == 1 {
        ws[0]
    } else {
        join(ws.drop_last()) + seq![' '] + ws.last()
    }
}

/// The text that encodes `data`.
pub open spec fn encoded(data: Seq<u8>) -> Seq<char> {
    join(words_of(data))
}

/// Joining one more word adds a separator and that word.
pub proof fn lemma_join_push(ws: Seq<Seq<char>>, w: Seq<char>)
    requires
        ws.len() > 0,
    ensures
        join(ws.push(w)) == join(ws) + seq![' '] + w,
{
    assert(ws.push(w).drop_last() =~= ws);
}

/// The two words of byte `b`: that of its high nibble, then that of its low
/// nibble.
fn encode_byte(b: u8) -> (r: (&'static str, &'static str))
    ensures
        r.0@ == word(b >> 4),
        r.1@ == word(b & 15),
{
    assert(b >> 4 < 16 && b & 15 < 16) by (bit_vector);
    (word_for(b >> 4), word_for(b & 15))
}

/// Encodes `data`, byte by byte in order, as space-separated words.
pub fn encode(data: &[u8]) -> (r: String)
    ensures
        r@ == encoded(data@),
{
    let mut out = String::new();
    let mut i: usize = 0;
    while i < data.len()
        invariant
            i <= data@.len(),
            out@ == encoded(data@.subrange(0, i as int)),
        decreases data@.len() - i,
    {
        let (hi, lo) = encode_byte(data[i]);
        let ghost ws = words_of(data@.subrange(0, i as int));
        let ghost ws1 = words_of(data@.subrange(0, i + 1));
        assert(ws1 =~= ws.push(hi@).push(lo@));
        if i > 0 {
            out.append(" ");
            proof {
                reveal_strlit(" ");
                lemma_join_push(ws, hi@);
            }
        } else {
            assert(ws.push(hi@) =~= seq![hi@]);
        }
        out.append(hi);
        out.append(" ");
        out.append(lo);
        proof {
            reveal_strlit(" ");
            lemma_join_push(ws.push(hi@), lo@);
        }
        i = i + 1;
    }
    assert(data@.subrange(0, data@.len() as int) =~= data@);
    out
}

/// The words of `s` cut at each space: `n` spaces give `n + 1` words, some
/// of them possibly empty.
pub open spec fn split(s: Seq<char>) -> Seq<Seq<char>>
    decreases s.len(),
{
    if s.len() == 0 {
        seq![seq![]]
    } else {
        let p = split(s.drop_last());
        if s.last() == ' ' {
            p.push(seq![])
        } else {
            p.update(p.len() - 1, p.last().push(s.last()))
        }
    }
}

/// The byte whose high nibble is given by word `hi` and low nibble by `lo`.
pub open spec fn byte_of(hi: Seq<char>, lo: Seq<char>) -> u8 {
    (nibble_value(hi) * 16 + nibble_value(lo)) as u8
}

/// The bytes of the words `ws` taken two at a time; an unpaired last word
/// gives nothing.
pub open spec fn decode_words(ws: Seq<Seq<char>>) -> Seq<u8> {
    Seq::new(ws.len() / 2, |i: int| byte_of(ws[2 * i], ws[2 * i + 1]))
}

/// The bytes that text `s` decodes to.
pub open spec fn decoded(s: Seq<char>) -> Seq<u8> {
    decode_words(split(s))
}

/// Splitting always gives at least one word.
proof fn lemma_split_len(s: Seq<char>)
    ensures
        split(s).len() >= 1,
    decreases s.len(),
{
    if s.len() > 0 {
        lemma_split_len(s.drop_last());
    }
}

/// One more word after an odd number of words completes one more byte.
proof fn lemma_decode_words_push(ws: Seq<Seq<char>>, w: Seq<char>)
    requires
        ws.len() % 2 == 1,
    ensures
        decode_words(ws.push(w)) == decode_words(ws).push(byte_of(ws.last(), w)),
{
    assert(decode_words(ws.push(w)) =~= decode_words(ws).push(byte_of(ws.last(), w)));
}

/// One more word after an even number of words adds no byte.
proof fn lemma_decode_words_push_even(ws: Seq<Seq<char>>, w: Seq<char>)
    requires
        ws.len() % 2 == 0,
    ensures
        decode_words(ws.push(w)) == decode_words(ws),
{
    assert(decode_words(ws.push(w)) =~= decode_words(ws));
}

/// Decodes space-separated words two at a time into bytes. A word outside the
/// vocabulary counts as nibble zero, and an unpaired last word is dropped.
pub fn decode(text: &str) -> (r: Vec<u8>)
    ensures
        r@ == decoded(text@),
{
    let mut data: Vec<u8> = Vec::new();
    let mut current: Vec<char> = Vec::new();
    let mut high: Option<u8> = None;
    let mut chars = text.chars();
    let ghost mut i: int = 0;
    loop
        invariant
            0 <= i <= text@.len(),
            chars.remaining() == text@.subrange(i, text@.len() as int),
            split(text@.subrange(0, i)).len() >= 1,
            current@ == split(text@.subrange(0, i)).last(),
            data@ == decode_words(split(text@.subrange(0, i)).drop_last()),
            high == (if split(text@.subrange(0, i)).drop_last().len() % 2 == 1 {
                Some(nibble_value(split(text@.subrange(0, i)).drop_last().last()))
            } else {
                None::<u8>
            }),
            high matches Some(h) ==> h < 16,
        ensures
            i == text@.len(),
        decreases text@.len() - i,
    {
        let ghost prev = split(text@.subrange(0, i));
        match chars.next() {
            None => {
                break;
            },
            Some(c) => {
                proof {
                    assert(text@.subrange(0, i + 1).drop_last() =~= text@.subrange(0, i));
                    assert(text@.subrange(i + 1, text@.len() as int) =~= text@.subrange(
                        i,
                        text@.len() as int,
                    ).drop_first());
                }
                if c == ' ' {
                    let n = decode_word(current.as_slice());
                    match high {
                        Some(h) => {
                            assert(h * 16 + n < 256) by (nonlinear_arith)
                                requires h < 16, n < 16;
                            data.push(h * 16 + n);
                            high = None;
                            proof {
                                lemma_decode_words_push(prev.drop_last(), prev.last());
                            }
                        },
                        None => {
                            high = Some(n);
                            proof {
                                lemma_decode_words_push_even(prev.drop_last(), prev.last());
                            }
                        },
                    }
                    current = Vec::new();
                    proof {
                        let next = split(text@.subrange(0, i + 1));
                        assert(next =~= prev.push(seq![]));
                        assert(next.drop_last() =~= prev);
                        assert(prev.drop_last().push(prev.last()) =~= prev);
                        i = i + 1;
                    }
                } else {
                    current.push(c);
                    proof {
                        let next = split(text@.subrange(0, i + 1));
                        assert(next.drop_last() =~= prev.drop_last());
                        i = i + 1;
                    }
                }
            },
        }
    }
    proof {
        assert(text@.subrange(0, i) =~= text@);
    }
    let ghost ws = split(text@);
    if let Some(h) = high {
        let n = decode_word(current.as_slice());
        assert(h * 16 + n < 256) by (nonlinear_arith)
            requires h < 16, n < 16;
        data.push(h * 16 + n);
        proof {
            lemma_decode_words_push(ws.drop_last(), ws.last());
        }
    } else {
        proof {
            lemma_decode_words_push_even(ws.drop_last(), ws.last());
        }
    }
    proof {
        assert(ws.drop_last().push(ws.last()) =~= ws);
    }
    data
}

/// Whether `w` holds no space.
pub open spec fn no_space(w: Seq<char>) -> bool {
    forall|j: int| 0 <= j < w.len() ==> w[j] != ' '
}

proof fn lemma_split_append_word(s: Seq<char>, w: Seq<char>)
    requires
        no_space(w),
    ensures
        split(s + w) == split(s).update(split(s).len() - 1, split(s).last() + w),
    decreases w.len(),
{
    lemma_split_len(s);
    if w.len() == 0 {
        assert(s + w =~= s);
        assert(split(s).last() + w =~= split(s).last());
        assert(split(s).update(split(s).len() - 1, split(s).last()) =~= split(s));
    } else {
        let v = w.drop_last();
        lemma_split_append_word(s, v);
        assert((s + w).drop_last() =~= s + v);
        assert((split(s).last() + v).push(w.last()) =~= split(s).last() + w);
        assert(split(s + w) =~= split(s).update(split(s).len() - 1, split(s).last() + w));
    }
}

proof fn lemma_split_join(ws: Seq<Seq<char>>)
    requires
        ws.len() >= 1,
        forall|k: int| 0 <= k < ws.len() ==> no_space(#[trigger] ws[k]),
    ensures
        split(join(ws)) == ws,
    decreases ws.len(),
{
    let e: Seq<char> = seq![];
    if ws.len() == 1 {
        lemma_split_append_word(e, ws[0]);
        assert(e + ws[0] =~= ws[0]);
        assert(split(e) =~= seq![e]);
        assert(seq![e].update(0, e + ws[0]) =~= ws);
    } else {
        let p = ws.drop_last();
        lemma_split_join(p);
        let t = join(p) + seq![' '];
        assert(t.drop_last() =~= join(p));
        assert(split(t) == p.push(e));
        lemma_split_append_word(t, ws.last());
        assert(e + ws.last() =~= ws.last());
        assert(p.push(e).update(p.len() as int, e + ws.last()) =~= ws);
    }
}

proof fn lemma_byte_of_words(b: u8)
    ensures
        byte_of(word(b >> 4), word(b & 15)) == b,
{
    assert(b >> 4 < 16 && b & 15 < 16) by (bit_vector);
    lemma_nibble_of_word(b >> 4);
    lemma_nibble_of_word(b & 15);
    assert((b >> 4) as int * 16 + (b & 15) as int == b as int) by (bit_vector);
}

/// Decoding undoes encoding: the text that encodes `data` decodes to `data`.
pub proof fn lemma_round_trip(data: Seq<u8>)
    ensures
        decoded(encoded(data)) == data,
{
    let ws = words_of(data);
    if data.len() == 0 {
        assert(split(seq![]) =~= seq![seq![]]);
        assert(decoded(encoded(data)) =~= data);
    } else {
        assert forall|k: int| 0 <= k < ws.len() implies no_space(#[trigger] ws[k]) by {
        }
        lemma_split_join(ws);
        assert forall|i: int| 0 <= i < data.len() implies decode_words(ws)[i] == data[i] by {
            assert((2 * i) / 2 == i);
            assert((2 * i + 1) / 2 == i);
            lemma_byte_of_words(data[i]);
        }
        assert(decode_words(ws) =~= data);
    }
}

/// Encoding is a function of the input alone: two encodings of the same
/// bytes are the same text.
pub proof fn lemma_encode_deterministic(data: Seq<u8>, first: Seq<char>, second: Seq<char>)
    requires
        first == encoded(data),
        second == encoded(data),
    ensures
        first == second,
{
}

proof fn lemma_join_append(x: Seq<Seq<char>>, y: Seq<Seq<char>>)
    requires
        x.len() > 0,
        y.len() > 0,
    ensures
        join(x + y) == join(x) + seq![' '] + join(y),
    decreases y.len(),
{
    if y.len() == 1 {
        assert(x + y =~= x.push(y[0]));
        lemma_join_push(x, y[0]);
    } else {
        let v = y.drop_last();
        lemma_join_append(x, v);
        assert((x + y).drop_last() =~= x + v);
        assert(join(x) + seq![' '] + join(v) + seq![' '] + y.last() =~= join(x) + seq![' '] + (
        join(v) + seq![' '] + y.last()));
    }
}

/// The encoding of two non-empty byte sequences put together is their
/// encodings joined by one separator.
pub proof fn lemma_encode_append(a: Seq<u8>, b: Seq<u8>)
    requires
        a.len() > 0,
        b.len() > 0,
    ensures
        encoded(a + b) == encoded(a) + seq![' '] + encoded(b),
{
    assert forall|i: int| 0 <= i < 2 * (a.len() + b.len()) implies #[trigger] words_of(a + b)[i]
        == (words_of(a) + words_of(b))[i] by {
        if i >= 2 * a.len() {
            let j = i - 2 * a.len();
            assert(j / 2 == i / 2 - a.len());
            assert(j % 2 == i % 2);
        }
    }
    assert(words_of(a + b) =~= words_of(a) + words_of(b));
    lemma_join_append(words_of(a), words_of(b));
}

/// Splitting at a separator: the words of `s`, a space and `t` are the words
/// of `s` followed by those of `t`.
pub proof fn lemma_split_separator(s: Seq<char>, t: Seq<char>)
    ensures
        split(s + seq![' '] + t) == split(s) + split(t),
    decreases t.len(),
{
    let e: Seq<char> = seq![];
    if t.len() == 0 {
        assert(s + seq![' '] + t =~= s.push(' '));
        assert((s.push(' ')).drop_last() =~= s);
        assert(split(t) =~= seq![e]);
        assert(split(s).push(e) =~= split(s) + seq![e]);
    } else {
        let v = t.drop_last();
        lemma_split_separator(s, v);
        lemma_split_len(v);
        assert((s + seq![' '] + t).drop_last() =~= s + seq![' '] + v);
        if t.last() == ' ' {
            assert((split(s) + split(v)).push(e) =~= split(s) + split(v).push(e));
        } else {
            let q = split(s) + split(v);
            assert(q.update(q.len() - 1, q.last().push(t.last())) =~= split(s) + split(v).update(
                split(v).len() - 1,
                split(v).last().push(t.last()),
            ));
        }
    }
}

/// The bytes of an even number of words followed by more words are the bytes
/// of each part in turn.
pub proof fn lemma_decode_words_append(x: Seq<Seq<char>>, y: Seq<Seq<char>>)
    requires
        x.len() % 2 == 0,
    ensures
        decode_words(x + y) == decode_words(x) + decode_words(y),
{
    assert forall|i: int| 0 <= i < (x.len() + y.len()) / 2 implies #[trigger] decode_words(x + y)[i]
        == (decode_words(x) + decode_words(y))[i] by {
        if i >= x.len() / 2 {
            let j = i - x.len() / 2;
            assert(2 * j == 2 * i - x.len());
        }
    }
    assert(decode_words(x + y) =~= decode_words(x) + decode_words(y));
}

} // verus!
