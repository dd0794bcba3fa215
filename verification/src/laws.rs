//! The laws of the codec: round trips between producer and consumer,
//! chunk-boundary invariance, `\r\n` tolerance, and the boundary behaviours
//! of empty, blank, unterminated, oversize and malformed input.
//!
//! The hypotheses about serialized record text (`frame_ok`, `frame_len`,
//! `env_frame_ok`, `env_frame_len`) are exactly what the postconditions of
//! `encode_bare` and `encode_enveloped` establish for every record they
//! serialized.

use vstd::prelude::*;
use crate::record::{DecodeConfig, ItemV, User};
use crate::framing::{
    NL, CR, tail_of, lines_of, trim, line_skip, line_item, line_closes, frame_item_of,
    decode_lines, lines_close, tail_items, decoded_spec, byte_closed, concat_chunks,
    lemma_stream_snoc, lemma_decode_lines_snoc, lemma_no_nl, lemma_append_frame,
    lemma_closed_append,
};
use crate::json::{json_of_user, user_of_json, json_of_envelope, is_utf8};
use crate::producer::{
    frame_ok, frame_len, env_frame_ok, env_frame_len, join_frames, bare_bodies, env_bodies,
    encode_bare_spec, encode_enveloped_spec,
};

verus! {

/// The expected decoding of a faithfully transported stream: one `Rec`
/// element per record, in order.
pub open spec fn rec_items(xs: Seq<User>) -> Seq<ItemV> {
    xs.map_values(|u: User| ItemV::Rec { id: u.id, name: u.name@ })
}

/// The frame bodies of a bare stream whose lines end in `\r\n`.
pub open spec fn crlf_bodies(xs: Seq<User>) -> Seq<Seq<u8>> {
    xs.map_values(|u: User| json_of_user(u.id, u.name@).push(CR))
}

/// The bytes of a bare stream that uses `\r\n` separators.
pub open spec fn encode_bare_crlf_spec(xs: Seq<User>) -> Seq<u8> {
    join_frames(crlf_bodies(xs))
}

/// Joining newline-free bodies, each followed by `\n`, after a stream whose
/// tail is empty appends exactly those bodies as complete lines.
pub proof fn lemma_join_frames_lines(s: Seq<u8>, bs: Seq<Seq<u8>>)
    requires
        tail_of(s).len() == 0,
        forall|k: int, i: int| 0 <= k < bs.len() && 0 <= i < bs[k].len()
            ==> (#[trigger] bs[k][i]) != NL,
    ensures
        lines_of(s + join_frames(bs)) == lines_of(s) + bs,
        tail_of(s + join_frames(bs)).len() == 0,
    decreases bs.len(),
{
    if bs.len() == 0 {
        assert(s + join_frames(bs) =~= s);
        assert(lines_of(s) + bs =~= lines_of(s));
    } else {
        let b0 = bs[0];
        assert(forall|i: int| 0 <= i < b0.len() ==> b0[i] != NL) by {
            assert(bs[0].len() == b0.len());
        }
        lemma_append_frame(s, b0);
        assert(tail_of(s) + b0 =~= b0);
        let s2 = s + b0.push(NL);
        assert forall|k: int, i: int|
            0 <= k < bs.drop_first().len() && 0 <= i < bs.drop_first()[k].len()
            implies (#[trigger] bs.drop_first()[k][i]) != NL by {
            assert(bs.drop_first()[k] == bs[k + 1]);
            assert(bs[k + 1].len() == bs.drop_first()[k].len());
        }
        lemma_join_frames_lines(s2, bs.drop_first());
        assert(s + join_frames(bs) =~= s2 + join_frames(bs.drop_first()));
        assert(lines_of(s).push(b0) + bs.drop_first() =~= lines_of(s) + bs);
    }
}

/// The complete lines of a well-formed bare stream decode to its records,
/// one each, without closing the stream.
pub proof fn lemma_decode_bare_bodies(xs: Seq<User>, cfg: DecodeConfig, at: nat)
    requires
        cfg.mode is Bare,
        forall|j: int| 0 <= j < xs.len() ==> #[trigger] frame_ok(xs[j]),
        forall|j: int| 0 <= j < xs.len() ==> #[trigger] frame_len(xs[j]) <= cfg.max_frame_bytes,
    ensures
        decode_lines(bare_bodies(xs), cfg, at) == rec_items(xs),
        !lines_close(bare_bodies(xs), cfg),
    decreases xs.len(),
{
    let bs = bare_bodies(xs);
    if xs.len() == 0 {
        assert(rec_items(xs) =~= Seq::<ItemV>::empty());
    } else {
        let u0 = xs[0];
        let j0 = json_of_user(u0.id, u0.name@);
        assert(frame_ok(u0));
        assert(frame_len(u0) <= cfg.max_frame_bytes);
        assert(bs[0] == j0);
        assert(j0[j0.len() - 1] != CR);
        assert(trim(j0) == j0);
        assert(!line_skip(j0, cfg));
        assert(!line_closes(j0, cfg));
        assert(line_item(j0, cfg, at) == ItemV::Rec { id: u0.id, name: u0.name@ });
        assert(bs.drop_first() =~= bare_bodies(xs.drop_first()));
        assert(forall|j: int| 0 <= j < xs.drop_first().len()
            ==> #[trigger] frame_ok(xs.drop_first()[j])) by {
            assert(forall|j: int| 0 <= j < xs.drop_first().len()
                ==> xs.drop_first()[j] == xs[j + 1]);
        }
        assert(forall|j: int| 0 <= j < xs.drop_first().len()
            ==> #[trigger] frame_len(xs.drop_first()[j]) <= cfg.max_frame_bytes) by {
            assert(forall|j: int| 0 <= j < xs.drop_first().len()
                ==> xs.drop_first()[j] == xs[j + 1]);
        }
        lemma_decode_bare_bodies(xs.drop_first(), cfg, at + 1);
        assert(decode_lines(bs, cfg, at)
            == seq![line_item(j0, cfg, at)] + decode_lines(bs.drop_first(), cfg, at + 1));
        assert(seq![ItemV::Rec { id: u0.id, name: u0.name@ }] + rec_items(xs.drop_first())
            =~= rec_items(xs));
    }
}

/// Bare round trip: decoding the encoding of any record sequence yields one
/// successful element per record, in order, provided every frame fits the
/// consumer's cap.
pub proof fn lemma_bare_round_trip(xs: Seq<User>, cfg: DecodeConfig)
    requires
        cfg.mode is Bare,
        forall|j: int| 0 <= j < xs.len() ==> #[trigger] frame_ok(xs[j]),
        forall|j: int| 0 <= j < xs.len() ==> #[trigger] frame_len(xs[j]) <= cfg.max_frame_bytes,
    ensures
        decoded_spec(encode_bare_spec(xs), cfg) == rec_items(xs),
{
    let bs = bare_bodies(xs);
    assert forall|k: int, i: int| 0 <= k < bs.len() && 0 <= i < bs[k].len()
        implies (#[trigger] bs[k][i]) != NL by {
        assert(frame_ok(xs[k]));
        assert(bs[k] == json_of_user(xs[k].id, xs[k].name@));
    }
    let e = Seq::<u8>::empty();
    lemma_join_frames_lines(e, bs);
    assert(e + join_frames(bs) =~= encode_bare_spec(xs));
    assert(lines_of(e) + bs =~= bs);
    lemma_decode_bare_bodies(xs, cfg, 0);
    assert(rec_items(xs) + tail_items(tail_of(encode_bare_spec(xs)), cfg, rec_items(xs).len())
        =~= rec_items(xs));
}

/// The complete lines of a well-formed enveloped stream whose last record is
/// stamped `done` decode to its records and close the stream at the last one.
pub proof fn lemma_decode_env_bodies(xs: Seq<User>, cfg: DecodeConfig, at: nat)
    requires
        cfg.mode is Enveloped,
        forall|j: int| 0 <= j < xs.len()
            ==> env_frame_ok(xs[j], j == xs.len() - 1),
        forall|j: int| 0 <= j < xs.len()
            ==> env_frame_len(xs[j], j == xs.len() - 1) <= cfg.max_frame_bytes,
    ensures
        decode_lines(env_bodies(xs, true), cfg, at) == rec_items(xs),
        lines_close(env_bodies(xs, true), cfg) == (xs.len() > 0),
    decreases xs.len(),
{
    let bs = env_bodies(xs, true);
    if xs.len() == 0 {
        assert(rec_items(xs) =~= Seq::<ItemV>::empty());
    } else {
        let u0 = xs[0];
        let last0 = xs.len() == 1;
        assert(env_frame_ok(xs[0], 0 == xs.len() - 1));
        assert(env_frame_len(xs[0], 0 == xs.len() - 1) <= cfg.max_frame_bytes);
        let j0 = json_of_envelope(u0.id, u0.name@, last0);
        assert(bs[0] == j0);
        assert(j0[j0.len() - 1] != CR);
        assert(trim(j0) == j0);
        assert(!line_skip(j0, cfg));
        assert(line_closes(j0, cfg) == last0);
        assert(line_item(j0, cfg, at) == ItemV::Rec { id: u0.id, name: u0.name@ });
        if last0 {
            assert(decode_lines(bs, cfg, at) == seq![line_item(j0, cfg, at)]);
            assert(seq![ItemV::Rec { id: u0.id, name: u0.name@ }] =~= rec_items(xs));
        } else {
            let ys = xs.drop_first();
            assert(bs.drop_first() =~= env_bodies(ys, true)) by {
                assert(forall|k: int| 0 <= k < bs.drop_first().len()
                    ==> #[trigger] bs.drop_first()[k] == bs[k + 1]);
                assert(forall|k: int| 0 <= k < ys.len() ==> #[trigger] ys[k] == xs[k + 1]);
            }
            assert(forall|j: int| 0 <= j < ys.len()
                ==> env_frame_ok(ys[j], j == ys.len() - 1)) by {
                assert(forall|j: int| 0 <= j < ys.len() ==> #[trigger] ys[j] == xs[j + 1]);
            }
            assert(forall|j: int| 0 <= j < ys.len()
                ==> env_frame_len(ys[j], j == ys.len() - 1) <= cfg.max_frame_bytes) by {
                assert(forall|j: int| 0 <= j < ys.len() ==> #[trigger] ys[j] == xs[j + 1]);
            }
            lemma_decode_env_bodies(ys, cfg, at + 1);
            assert(decode_lines(bs, cfg, at)
                == seq![line_item(j0, cfg, at)] + decode_lines(bs.drop_first(), cfg, at + 1));
            assert(seq![ItemV::Rec { id: u0.id, name: u0.name@ }] + rec_items(ys)
                =~= rec_items(xs));
        }
    }
}

/// Enveloped round trip: decoding the encoding of a non-empty record
/// sequence with `done` stamped on the last record yields one successful
/// element per record and ends the stream at the last frame.
pub proof fn lemma_enveloped_round_trip(xs: Seq<User>, cfg: DecodeConfig)
    requires
        cfg.mode is Enveloped,
        xs.len() > 0,
        forall|j: int| 0 <= j < xs.len()
            ==> env_frame_ok(xs[j], j == xs.len() - 1),
        forall|j: int| 0 <= j < xs.len()
            ==> env_frame_len(xs[j], j == xs.len() - 1) <= cfg.max_frame_bytes,
    ensures
        decoded_spec(encode_enveloped_spec(xs, true), cfg) == rec_items(xs),
        byte_closed(encode_enveloped_spec(xs, true), cfg),
{
    let bs = env_bodies(xs, true);
    assert forall|k: int, i: int| 0 <= k < bs.len() && 0 <= i < bs[k].len()
        implies (#[trigger] bs[k][i]) != NL by {
        assert(env_frame_ok(xs[k], k == xs.len() - 1));
        assert(bs[k] == json_of_envelope(xs[k].id, xs[k].name@, k == xs.len() - 1));
    }
    let e = Seq::<u8>::empty();
    lemma_join_frames_lines(e, bs);
    assert(e + join_frames(bs) =~= encode_enveloped_spec(xs, true));
    assert(lines_of(e) + bs =~= bs);
    lemma_decode_env_bodies(xs, cfg, 0);
}

/// Bytes arriving after the `done` frame of an enveloped stream are never
/// consumed: the decoded sequence is unchanged by any suffix.
pub proof fn lemma_enveloped_stops(xs: Seq<User>, cfg: DecodeConfig, extra: Seq<u8>)
    requires
        cfg.mode is Enveloped,
        xs.len() > 0,
        forall|j: int| 0 <= j < xs.len()
            ==> env_frame_ok(xs[j], j == xs.len() - 1),
        forall|j: int| 0 <= j < xs.len()
            ==> env_frame_len(xs[j], j == xs.len() - 1) <= cfg.max_frame_bytes,
    ensures
        decoded_spec(encode_enveloped_spec(xs, true) + extra, cfg) == rec_items(xs),
{
    lemma_enveloped_round_trip(xs, cfg);
    lemma_closed_append(encode_enveloped_spec(xs, true), extra, cfg);
}

/// The decoded sequence depends only on the concatenation of the chunks,
/// never on where their boundaries fall; `decode_all`'s contract delivers
/// each chunking to this common value.
pub proof fn lemma_chunk_boundary_invariance(
    cs1: Seq<Seq<u8>>,
    cs2: Seq<Seq<u8>>,
    cfg: DecodeConfig,
)
    requires
        concat_chunks(cs1) == concat_chunks(cs2),
    ensures
        decoded_spec(concat_chunks(cs1), cfg) == decoded_spec(concat_chunks(cs2), cfg),
{
}

/// The complete lines of a bare stream with `\r\n` separators decode to its
/// records: the trailing `\r` of each line is stripped before decoding.
pub proof fn lemma_decode_crlf_bodies(xs: Seq<User>, cfg: DecodeConfig, at: nat)
    requires
        cfg.mode is Bare,
        forall|j: int| 0 <= j < xs.len() ==> #[trigger] frame_ok(xs[j]),
        forall|j: int| 0 <= j < xs.len()
            ==> #[trigger] frame_len(xs[j]) + 1 <= cfg.max_frame_bytes,
    ensures
        decode_lines(crlf_bodies(xs), cfg, at) == rec_items(xs),
        !lines_close(crlf_bodies(xs), cfg),
    decreases xs.len(),
{
    let bs = crlf_bodies(xs);
    if xs.len() == 0 {
        assert(rec_items(xs) =~= Seq::<ItemV>::empty());
    } else {
        let u0 = xs[0];
        let j0 = json_of_user(u0.id, u0.name@);
        assert(frame_ok(u0));
        assert(frame_len(u0) + 1 <= cfg.max_frame_bytes);
        assert(bs[0] == j0.push(CR));
        assert(j0.push(CR).last() == CR);
        assert(j0.push(CR).drop_last() =~= j0);
        assert(trim(j0.push(CR)) == j0);
        assert(!line_skip(j0.push(CR), cfg));
        assert(!line_closes(j0.push(CR), cfg));
        assert(line_item(j0.push(CR), cfg, at) == ItemV::Rec { id: u0.id, name: u0.name@ });
        assert(bs.drop_first() =~= crlf_bodies(xs.drop_first()));
        assert(forall|j: int| 0 <= j < xs.drop_first().len()
            ==> #[trigger] frame_ok(xs.drop_first()[j])) by {
            assert(forall|j: int| 0 <= j < xs.drop_first().len()
                ==> xs.drop_first()[j] == xs[j + 1]);
        }
        assert(forall|j: int| 0 <= j < xs.drop_first().len()
            ==> #[trigger] frame_len(xs.drop_first()[j]) + 1 <= cfg.max_frame_bytes) by {
            assert(forall|j: int| 0 <= j < xs.drop_first().len()
                ==> xs.drop_first()[j] == xs[j + 1]);
        }
        lemma_decode_crlf_bodies(xs.drop_first(), cfg, at + 1);
        assert(decode_lines(bs, cfg, at)
            == seq![line_item(j0.push(CR), cfg, at)]
                + decode_lines(bs.drop_first(), cfg, at + 1));
        assert(seq![ItemV::Rec { id: u0.id, name: u0.name@ }] + rec_items(xs.drop_first())
            =~= rec_items(xs));
    }
}

/// `\r\n` tolerance: a bare stream written with `\r\n` separators decodes to
/// the same sequence as the same stream written with `\n` alone.
pub proof fn lemma_crlf_round_trip(xs: Seq<User>, cfg: DecodeConfig)
    requires
        cfg.mode is Bare,
        forall|j: int| 0 <= j < xs.len() ==> #[trigger] frame_ok(xs[j]),
        forall|j: int| 0 <= j < xs.len()
            ==> #[trigger] frame_len(xs[j]) + 1 <= cfg.max_frame_bytes,
    ensures
        decoded_spec(encode_bare_crlf_spec(xs), cfg) == decoded_spec(encode_bare_spec(xs), cfg),
{
    let bs = crlf_bodies(xs);
    assert forall|k: int, i: int| 0 <= k < bs.len() && 0 <= i < bs[k].len()
        implies (#[trigger] bs[k][i]) != NL by {
        assert(frame_ok(xs[k]));
        assert(bs[k] == json_of_user(xs[k].id, xs[k].name@).push(CR));
    }
    let e = Seq::<u8>::empty();
    lemma_join_frames_lines(e, bs);
    assert(e + join_frames(bs) =~= encode_bare_crlf_spec(xs));
    assert(lines_of(e) + bs =~= bs);
    lemma_decode_crlf_bodies(xs, cfg, 0);
    assert(rec_items(xs)
        + tail_items(tail_of(encode_bare_crlf_spec(xs)), cfg, rec_items(xs).len())
        =~= rec_items(xs));
    lemma_bare_round_trip(xs, cfg);
}

/// An empty body decodes to the empty sequence: clean termination.
pub proof fn lemma_empty_stream(cfg: DecodeConfig)
    ensures
        decoded_spec(Seq::<u8>::empty(), cfg) == Seq::<ItemV>::empty(),
{
    let e = Seq::<u8>::empty();
    assert(decode_lines(lines_of(e), cfg, 0) + tail_items(tail_of(e), cfg, 0)
        =~= Seq::<ItemV>::empty());
}

/// A body of nothing but `\n` bytes decodes to the empty sequence: empty
/// frames are skipped silently.
pub proof fn lemma_blank_stream(s: Seq<u8>, cfg: DecodeConfig)
    requires
        forall|i: int| 0 <= i < s.len() ==> s[i] == NL,
    ensures
        tail_of(s).len() == 0,
        decode_lines(lines_of(s), cfg, 0) == Seq::<ItemV>::empty(),
        !lines_close(lines_of(s), cfg),
        decoded_spec(s, cfg) == Seq::<ItemV>::empty(),
    decreases s.len(),
{
    if s.len() == 0 {
        assert(decode_lines(lines_of(s), cfg, 0) + tail_items(tail_of(s), cfg, 0)
            =~= Seq::<ItemV>::empty());
    } else {
        lemma_blank_stream(s.drop_last(), cfg);
        lemma_stream_snoc(s.drop_last(), NL);
        assert(s.drop_last().push(NL) =~= s);
        lemma_decode_lines_snoc(lines_of(s.drop_last()), tail_of(s.drop_last()), cfg, 0);
        assert(line_skip(tail_of(s.drop_last()), cfg));
        assert(decode_lines(lines_of(s), cfg, 0) + tail_items(tail_of(s), cfg, 0)
            =~= Seq::<ItemV>::empty());
    }
}

/// A single frame without a trailing `\n`: accepted as a final frame when
/// unterminated tails are accepted, a terminal `Truncated` element otherwise.
pub proof fn lemma_unterminated_tail(s: Seq<u8>, cfg: DecodeConfig)
    requires
        forall|i: int| 0 <= i < s.len() ==> s[i] != NL,
        0 < s.len() <= cfg.max_frame_bytes,
    ensures
        cfg.accept_unterminated_tail ==> decoded_spec(s, cfg) == seq![frame_item_of(s, cfg, 0)],
        !cfg.accept_unterminated_tail ==> decoded_spec(s, cfg) == seq![ItemV::Truncated],
{
    lemma_no_nl(s);
    assert(decode_lines(lines_of(s), cfg, 0) == Seq::<ItemV>::empty());
    assert(Seq::<ItemV>::empty() + tail_items(s, cfg, 0) =~= tail_items(s, cfg, 0));
}

/// A frame that exceeds the buffer cap before any `\n` arrives yields a
/// single terminal `TooLarge` element; the stream is closed, so any bytes
/// after it change nothing (`lemma_closed_append`).
pub proof fn lemma_oversize_frame(s: Seq<u8>, cfg: DecodeConfig)
    requires
        forall|i: int| 0 <= i < s.len() ==> s[i] != NL,
        s.len() > cfg.max_frame_bytes,
    ensures
        decoded_spec(s, cfg) == seq![ItemV::TooLarge { at: 0 }],
        byte_closed(s, cfg),
{
    lemma_no_nl(s);
    assert(decode_lines(lines_of(s), cfg, 0) == Seq::<ItemV>::empty());
    assert(Seq::<ItemV>::empty() + tail_items(s, cfg, 0) =~= tail_items(s, cfg, 0));
}

/// A malformed frame between two valid frames yields an inline error and the
/// stream continues: the records around it are still decoded.
pub proof fn lemma_malformed_between(x1: User, junk: Seq<u8>, x3: User, cfg: DecodeConfig)
    requires
        cfg.mode is Bare,
        frame_ok(x1),
        frame_ok(x3),
        frame_len(x1) <= cfg.max_frame_bytes,
        frame_len(x3) <= cfg.max_frame_bytes,
        0 < junk.len() <= cfg.max_frame_bytes,
        forall|i: int| 0 <= i < junk.len() ==> junk[i] != NL,
        junk.last() != CR,
        is_utf8(junk),
        user_of_json(junk) is None,
    ensures
        decoded_spec(
            json_of_user(x1.id, x1.name@).push(NL) + junk.push(NL)
                + json_of_user(x3.id, x3.name@).push(NL),
            cfg,
        ) == seq![
            ItemV::Rec { id: x1.id, name: x1.name@ },
            ItemV::BadJson { at: 1 },
            ItemV::Rec { id: x3.id, name: x3.name@ },
        ],
{
    let j1 = json_of_user(x1.id, x1.name@);
    let j3 = json_of_user(x3.id, x3.name@);
    let bs = seq![j1, junk, j3];
    let stream = j1.push(NL) + junk.push(NL) + j3.push(NL);
    assert(bs.drop_first() =~= seq![junk, j3]);
    assert(seq![junk, j3].drop_first() =~= seq![j3]);
    assert(seq![j3].drop_first() =~= Seq::<Seq<u8>>::empty());
    assert(bs[0] == j1 && seq![junk, j3][0] == junk && seq![j3][0] == j3);
    assert(join_frames(Seq::<Seq<u8>>::empty()) == Seq::<u8>::empty());
    assert(join_frames(seq![j3]) == j3.push(NL) + join_frames(Seq::<Seq<u8>>::empty()));
    assert(join_frames(seq![junk, j3]) == junk.push(NL) + join_frames(seq![j3]));
    assert(join_frames(bs) == j1.push(NL) + join_frames(seq![junk, j3]));
    assert(stream =~= join_frames(bs));
    assert forall|k: int, i: int| 0 <= k < bs.len() && 0 <= i < bs[k].len()
        implies (#[trigger] bs[k][i]) != NL by {
        assert(bs[0] == j1 && bs[1] == junk && bs[2] == j3);
    }
    let e = Seq::<u8>::empty();
    lemma_join_frames_lines(e, bs);
    assert(lines_of(e) + bs =~= bs);
    // Decode the three lines in order.
    assert(trim(j1) == j1 && trim(j3) == j3);
    assert(junk[junk.len() - 1] != CR);
    assert(trim(junk) == junk);
    assert(!line_skip(j1, cfg) && !line_closes(j1, cfg));
    assert(!line_skip(junk, cfg) && !line_closes(junk, cfg));
    assert(!line_skip(j3, cfg) && !line_closes(j3, cfg));
    assert(line_item(j1, cfg, 0) == ItemV::Rec { id: x1.id, name: x1.name@ });
    assert(line_item(junk, cfg, 1) == ItemV::BadJson { at: 1 });
    assert(line_item(j3, cfg, 2) == ItemV::Rec { id: x3.id, name: x3.name@ });
    assert(decode_lines(Seq::<Seq<u8>>::empty(), cfg, 3) == Seq::<ItemV>::empty());
    assert(decode_lines(seq![j3], cfg, 2)
        == seq![line_item(j3, cfg, 2)] + decode_lines(Seq::<Seq<u8>>::empty(), cfg, 3));
    assert(decode_lines(seq![junk, j3], cfg, 1)
        == seq![line_item(junk, cfg, 1)] + decode_lines(seq![j3], cfg, 2));
    assert(decode_lines(bs, cfg, 0)
        == seq![line_item(j1, cfg, 0)] + decode_lines(seq![junk, j3], cfg, 1));
    assert(!lines_close(Seq::<Seq<u8>>::empty(), cfg));
    assert(!lines_close(seq![j3], cfg));
    assert(!lines_close(seq![junk, j3], cfg));
    assert(!lines_close(bs, cfg));
    assert(decode_lines(bs, cfg, 0)
        =~= seq![
            ItemV::Rec { id: x1.id, name: x1.name@ },
            ItemV::BadJson { at: 1 },
            ItemV::Rec { id: x3.id, name: x3.name@ },
        ]);
    assert(decode_lines(bs, cfg, 0) + tail_items(tail_of(stream), cfg, 3)
        =~= decode_lines(bs, cfg, 0));
}

} // verus!
