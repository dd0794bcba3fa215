//! The ghost model of the wire framing.
//!
//! A byte stream is split at `\n` (byte 10) into complete lines followed by an
//! unterminated tail. Each complete line, after stripping one trailing `\r`,
//! is either skipped (empty), decoded into one element of the result
//! sequence, or ends the stream (`done` envelope, oversize frame). The model
//! is written by recursion on the last byte, so that feeding one byte to the
//! incremental decoder unfolds it one step.

use vstd::prelude::*;
use crate::record::{DecodeConfig, ItemV, Mode};
use crate::json::{is_utf8, user_of_json, envelope_of_json};

verus! {

pub const NL: u8 = 10;
pub const CR: u8 = 13;

/// The bytes after the last `\n`: the unterminated tail of the stream.
pub open spec fn tail_of(s: Seq<u8>) -> Seq<u8>
    decreases s.len(),
{
    if s.len() == 0 {
        Seq::empty()
    } else if s.last() == NL {
        Seq::empty()
    } else {
        tail_of(s.drop_last()).push(s.last())
    }
}

/// The complete lines of the stream: the maximal `\n`-free runs before each
/// `\n`, in order, without their terminators.
pub open spec fn lines_of(s: Seq<u8>) -> Seq<Seq<u8>>
    decreases s.len(),
{
    if s.len() == 0 {
        Seq::empty()
    } else if s.last() == NL {
        lines_of(s.drop_last()).push(tail_of(s.drop_last()))
    } else {
        lines_of(s.drop_last())
    }
}

/// One trailing `\r` is stripped from a complete line (`\r\n` tolerance).
pub open spec fn trim(l: Seq<u8>) -> Seq<u8> {
    if l.len() > 0 && l.last() == CR {
        l.drop_last()
    } else {
        l
    }
}

/// A complete line that is empty once trimmed is skipped silently.
pub open spec fn line_skip(l: Seq<u8>, cfg: DecodeConfig) -> bool {
    l.len() <= cfg.max_frame_bytes && trim(l).len() == 0
}

/// The element produced by one trimmed, non-empty frame body: UTF-8 check,
/// then JSON decode in the configured mode.
pub open spec fn frame_item_of(body: Seq<u8>, cfg: DecodeConfig, at: nat) -> ItemV {
    if !is_utf8(body) {
        ItemV::BadUtf8 { at }
    } else if cfg.mode is Bare {
        match user_of_json(body) {
            Some(p) => ItemV::Rec { id: p.0, name: p.1 },
            None => ItemV::BadJson { at },
        }
    } else {
        match envelope_of_json(body) {
            Some(p) => ItemV::Rec { id: p.0, name: p.1 },
            None => ItemV::BadJson { at },
        }
    }
}

/// The element produced by one complete line at frame index `at`.
pub open spec fn line_item(l: Seq<u8>, cfg: DecodeConfig, at: nat) -> ItemV {
    if l.len() > cfg.max_frame_bytes {
        ItemV::TooLarge { at }
    } else {
        frame_item_of(trim(l), cfg, at)
    }
}

/// Whether one complete line ends the stream: it exceeds the frame cap, or,
/// in enveloped mode, it carries `done = true`.
pub open spec fn line_closes(l: Seq<u8>, cfg: DecodeConfig) -> bool {
    ||| l.len() > cfg.max_frame_bytes
    ||| {
        &&& cfg.mode is Enveloped
        &&& trim(l).len() > 0
        &&& is_utf8(trim(l))
        &&& match envelope_of_json(trim(l)) {
                Some(p) => p.2,
                None => false,
            }
    }
}

/// The elements produced by a sequence of complete lines, starting at frame
/// index `at`; production stops at the first closing line.
pub open spec fn decode_lines(ls: Seq<Seq<u8>>, cfg: DecodeConfig, at: nat) -> Seq<ItemV>
    decreases ls.len(),
{
    if ls.len() == 0 {
        Seq::empty()
    } else if line_skip(ls[0], cfg) {
        decode_lines(ls.drop_first(), cfg, at)
    } else if line_closes(ls[0], cfg) {
        seq![line_item(ls[0], cfg, at)]
    } else {
        seq![line_item(ls[0], cfg, at)] + decode_lines(ls.drop_first(), cfg, at + 1)
    }
}

/// Whether some line of the sequence ends the stream.
pub open spec fn lines_close(ls: Seq<Seq<u8>>, cfg: DecodeConfig) -> bool
    decreases ls.len(),
{
    if ls.len() == 0 {
        false
    } else {
        (!line_skip(ls[0], cfg) && line_closes(ls[0], cfg)) || lines_close(ls.drop_first(), cfg)
    }
}

/// The elements produced at end of stream by the unterminated tail.
pub open spec fn tail_items(t: Seq<u8>, cfg: DecodeConfig, at: nat) -> Seq<ItemV> {
    if t.len() == 0 {
        Seq::empty()
    } else if t.len() > cfg.max_frame_bytes {
        seq![ItemV::TooLarge { at }]
    } else if !cfg.accept_unterminated_tail {
        seq![ItemV::Truncated]
    } else {
        seq![frame_item_of(t, cfg, at)]
    }
}

/// The full decoded sequence of a byte stream: the elements of its complete
/// lines and, if no line ended the stream, the elements of its tail.
pub open spec fn decoded_spec(bytes: Seq<u8>, cfg: DecodeConfig) -> Seq<ItemV> {
    let items = decode_lines(lines_of(bytes), cfg, 0);
    if lines_close(lines_of(bytes), cfg) {
        items
    } else {
        items + tail_items(tail_of(bytes), cfg, items.len() as nat)
    }
}

/// Whether the bytes alone already ended the stream, so that any further
/// bytes cannot change the decoded sequence.
pub open spec fn byte_closed(bytes: Seq<u8>, cfg: DecodeConfig) -> bool {
    lines_close(lines_of(bytes), cfg) || tail_of(bytes).len() > cfg.max_frame_bytes
}

/// The concatenation of a sequence of byte chunks.
pub open spec fn concat_chunks(cs: Seq<Seq<u8>>) -> Seq<u8>
    decreases cs.len(),
{
    if cs.len() == 0 {
        Seq::empty()
    } else {
        cs[0] + concat_chunks(cs.drop_first())
    }
}

/// Appending one byte extends the tail, or closes the current line.
pub proof fn lemma_stream_snoc(s: Seq<u8>, b: u8)
    ensures
        b == NL ==> lines_of(s.push(b)) == lines_of(s).push(tail_of(s))
            && tail_of(s.push(b)) == Seq::<u8>::empty(),
        b != NL ==> lines_of(s.push(b)) == lines_of(s)
            && tail_of(s.push(b)) == tail_of(s).push(b),
{
    assert(s.push(b).drop_last() =~= s);
    assert(s.push(b).last() == b);
}

/// A `\n`-free byte sequence has no complete lines and is all tail.
pub proof fn lemma_no_nl(s: Seq<u8>)
    requires
        forall|i: int| 0 <= i < s.len() ==> s[i] != NL,
    ensures
        lines_of(s) == Seq::<Seq<u8>>::empty(),
        tail_of(s) == s,
    decreases s.len(),
{
    if s.len() == 0 {
        assert(tail_of(s) =~= s);
    } else {
        lemma_no_nl(s.drop_last());
        assert(tail_of(s.drop_last()).push(s.last()) =~= s);
    }
}

/// Appending `\n`-free bytes leaves the lines unchanged and extends the tail.
pub proof fn lemma_append_no_nl(s: Seq<u8>, a: Seq<u8>)
    requires
        forall|i: int| 0 <= i < a.len() ==> a[i] != NL,
    ensures
        lines_of(s + a) == lines_of(s),
        tail_of(s + a) == tail_of(s) + a,
    decreases a.len(),
{
    if a.len() == 0 {
        assert(s + a =~= s);
        assert(tail_of(s) + a =~= tail_of(s));
    } else {
        lemma_append_no_nl(s, a.drop_last());
        assert(s + a =~= (s + a.drop_last()).push(a.last()));
        lemma_stream_snoc(s + a.drop_last(), a.last());
        assert((tail_of(s) + a.drop_last()).push(a.last()) =~= tail_of(s) + a);
    }
}

/// Appending one complete frame (a `\n`-free body plus `\n`) appends one line.
pub proof fn lemma_append_frame(s: Seq<u8>, body: Seq<u8>)
    requires
        forall|i: int| 0 <= i < body.len() ==> body[i] != NL,
    ensures
        lines_of(s + body.push(NL)) == lines_of(s).push(tail_of(s) + body),
        tail_of(s + body.push(NL)) == Seq::<u8>::empty(),
{
    lemma_append_no_nl(s, body);
    lemma_stream_snoc(s + body, NL);
    assert(s + body.push(NL) =~= (s + body).push(NL));
}

/// How one more line extends the decoded elements: nothing if the stream was
/// closed, nothing if the line is skipped, else exactly one element at the
/// next frame index.
pub proof fn lemma_decode_lines_snoc(ls: Seq<Seq<u8>>, l: Seq<u8>, cfg: DecodeConfig, at: nat)
    ensures
        lines_close(ls.push(l), cfg)
            == (lines_close(ls, cfg) || (!line_skip(l, cfg) && line_closes(l, cfg))),
        lines_close(ls, cfg) ==> decode_lines(ls.push(l), cfg, at) == decode_lines(ls, cfg, at),
        !lines_close(ls, cfg) && line_skip(l, cfg)
            ==> decode_lines(ls.push(l), cfg, at) == decode_lines(ls, cfg, at),
        !lines_close(ls, cfg) && !line_skip(l, cfg)
            ==> decode_lines(ls.push(l), cfg, at) == decode_lines(ls, cfg, at).push(
                    line_item(l, cfg, at + decode_lines(ls, cfg, at).len())),
    decreases ls.len(),
{
    if ls.len() == 0 {
        assert(ls.push(l) =~= seq![l]);
        assert(ls.push(l)[0] == l);
        assert(ls.push(l).drop_first() =~= Seq::<Seq<u8>>::empty());
        assert(decode_lines(Seq::<Seq<u8>>::empty(), cfg, at) == Seq::<ItemV>::empty());
        assert(decode_lines(Seq::<Seq<u8>>::empty(), cfg, at + 1) == Seq::<ItemV>::empty());
        assert(lines_close(Seq::<Seq<u8>>::empty(), cfg) == false);
        assert(decode_lines(ls, cfg, at) == Seq::<ItemV>::empty());
        assert(lines_close(ls, cfg) == false);
        if !line_skip(l, cfg) {
            assert(seq![line_item(l, cfg, at)]
                =~= decode_lines(ls, cfg, at).push(line_item(l, cfg, at)));
            if !line_closes(l, cfg) {
                assert(decode_lines(ls.push(l), cfg, at)
                    == seq![line_item(l, cfg, at)] + Seq::<ItemV>::empty());
                assert(seq![line_item(l, cfg, at)] + Seq::<ItemV>::empty()
                    =~= seq![line_item(l, cfg, at)]);
            }
        }
    } else {
        assert(ls.push(l)[0] == ls[0]);
        assert(ls.push(l).drop_first() =~= ls.drop_first().push(l));
        lemma_decode_lines_snoc(ls.drop_first(), l, cfg, at);
        lemma_decode_lines_snoc(ls.drop_first(), l, cfg, at + 1);
        if !lines_close(ls, cfg) && !line_skip(l, cfg) && !line_skip(ls[0], cfg)
            && !line_closes(ls[0], cfg) {
            let rest = decode_lines(ls.drop_first(), cfg, at + 1);
            assert(decode_lines(ls, cfg, at) == seq![line_item(ls[0], cfg, at)] + rest);
            assert((seq![line_item(ls[0], cfg, at)] + rest).len() == 1 + rest.len());
            assert(seq![line_item(ls[0], cfg, at)]
                    + rest.push(line_item(l, cfg, (at + 1) + rest.len()))
                =~= (seq![line_item(ls[0], cfg, at)] + rest).push(
                    line_item(l, cfg, at + (seq![line_item(ls[0], cfg, at)] + rest).len())));
        }
    }
}

/// Once the bytes alone have closed the stream, one more byte changes
/// nothing of the decoded sequence.
pub proof fn lemma_closed_snoc(s: Seq<u8>, b: u8, cfg: DecodeConfig)
    requires
        byte_closed(s, cfg),
    ensures
        byte_closed(s.push(b), cfg),
        decoded_spec(s.push(b), cfg) == decoded_spec(s, cfg),
{
    lemma_stream_snoc(s, b);
    let ls = lines_of(s);
    let t = tail_of(s);
    if lines_close(ls, cfg) {
        if b == NL {
            lemma_decode_lines_snoc(ls, t, cfg, 0);
        }
    } else {
        // The tail has outgrown the cap.
        let items = decode_lines(ls, cfg, 0);
        let n = items.len() as nat;
        if b == NL {
            // The oversize tail becomes an oversize (closing) line.
            lemma_decode_lines_snoc(ls, t, cfg, 0);
            assert(!line_skip(t, cfg));
            assert(line_closes(t, cfg));
            assert(line_item(t, cfg, n) == ItemV::TooLarge { at: n });
            assert(items.push(ItemV::TooLarge { at: n })
                =~= items + tail_items(t, cfg, n));
        } else {
            // The tail grows and stays oversize.
            assert(tail_of(s.push(b)).len() > cfg.max_frame_bytes);
        }
    }
}

/// Once the bytes alone have closed the stream, any further bytes change
/// nothing of the decoded sequence.
pub proof fn lemma_closed_append(s: Seq<u8>, t: Seq<u8>, cfg: DecodeConfig)
    requires
        byte_closed(s, cfg),
    ensures
        byte_closed(s + t, cfg),
        decoded_spec(s + t, cfg) == decoded_spec(s, cfg),
    decreases t.len(),
{
    if t.len() == 0 {
        assert(s + t =~= s);
    } else {
        lemma_closed_append(s, t.drop_last(), cfg);
        lemma_closed_snoc(s + t.drop_last(), t.last(), cfg);
        assert((s + t.drop_last()).push(t.last()) =~= s + t);
    }
}

/// One more chunk extends the concatenation at the end.
pub proof fn lemma_concat_chunks_take(cs: Seq<Seq<u8>>, i: int)
    requires
        0 <= i < cs.len(),
    ensures
        concat_chunks(cs.take(i + 1)) == concat_chunks(cs.take(i)) + cs[i],
    decreases i,
{
    if i == 0 {
        assert(cs.take(1) =~= seq![cs[0]]);
        assert(cs.take(1).drop_first() =~= Seq::<Seq<u8>>::empty());
        assert(cs[0] + concat_chunks(Seq::<Seq<u8>>::empty()) =~= cs[0]);
        assert(concat_chunks(cs.take(0)) + cs[0] =~= cs[0]);
    } else {
        lemma_concat_chunks_take(cs.drop_first(), i - 1);
        assert(cs.take(i + 1)[0] == cs[0]);
        assert(cs.take(i)[0] == cs[0]);
        assert(cs.take(i + 1).drop_first() =~= cs.drop_first().take(i));
        assert(cs.take(i).drop_first() =~= cs.drop_first().take(i - 1));
        assert(cs.drop_first()[i - 1] == cs[i]);
        assert(cs[0] + (concat_chunks(cs.drop_first().take(i - 1)) + cs[i])
            =~= (cs[0] + concat_chunks(cs.drop_first().take(i - 1))) + cs[i]);
    }
}

} // verus!
