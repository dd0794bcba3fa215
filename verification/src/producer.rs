//! The producer: records are serialized one per frame, each frame being the
//! record's JSON text followed by `\n`. In enveloped mode each record is
//! wrapped in `{ "data": ..., "done": ... }`, and `done` can be stamped on
//! the last record to mark the end of the logical stream.

use vstd::prelude::*;
use crate::record::User;
use crate::framing::NL;
use crate::json::{
    json_of_user, user_of_json, json_of_envelope, envelope_of_json, is_utf8, user_to_json,
    envelope_to_json,
};

verus! {

/// What `serde_json` guarantees of one record's serialized text: non-empty,
/// free of `\n` and `\r`, valid UTF-8, and parsed back to the same fields.
/// Established by each call of the serializer, and a hypothesis of the
/// round-trip laws.
pub open spec fn frame_ok(u: User) -> bool {
    let j = json_of_user(u.id, u.name@);
    &&& j.len() > 0
    &&& forall|i: int| 0 <= i < j.len() ==> j[i] != NL && j[i] != 13u8
    &&& is_utf8(j)
    &&& user_of_json(j) == Some((u.id, u.name@))
}

/// The length of one record's serialized text.
pub open spec fn frame_len(u: User) -> nat {
    json_of_user(u.id, u.name@).len()
}

/// The envelope counterpart of `frame_ok`.
pub open spec fn env_frame_ok(u: User, done: bool) -> bool {
    let j = json_of_envelope(u.id, u.name@, done);
    &&& j.len() > 0
    &&& forall|i: int| 0 <= i < j.len() ==> j[i] != NL && j[i] != 13u8
    &&& is_utf8(j)
    &&& envelope_of_json(j) == Some((u.id, u.name@, done))
}

/// The length of one envelope's serialized text.
pub open spec fn env_frame_len(u: User, done: bool) -> nat {
    json_of_envelope(u.id, u.name@, done).len()
}

/// One frame per body: each body followed by `\n`, in order.
pub open spec fn join_frames(bs: Seq<Seq<u8>>) -> Seq<u8>
    decreases bs.len(),
{
    if bs.len() == 0 {
        Seq::empty()
    } else {
        bs[0].push(NL) + join_frames(bs.drop_first())
    }
}

/// The frame bodies of a bare stream: one JSON record per line.
pub open spec fn bare_bodies(xs: Seq<User>) -> Seq<Seq<u8>> {
    xs.map_values(|u: User| json_of_user(u.id, u.name@))
}

/// The frame bodies of an enveloped stream; with `stamp`, the last envelope
/// carries `done = true`.
pub open spec fn env_bodies(xs: Seq<User>, stamp: bool) -> Seq<Seq<u8>> {
    Seq::new(xs.len(), |i: int| json_of_envelope(xs[i].id, xs[i].name@, stamp && i == xs.len() - 1))
}

/// The bytes of a bare stream of the given records.
pub open spec fn encode_bare_spec(xs: Seq<User>) -> Seq<u8> {
    join_frames(bare_bodies(xs))
}

/// The bytes of an enveloped stream of the given records.
pub open spec fn encode_enveloped_spec(xs: Seq<User>, stamp: bool) -> Seq<u8> {
    join_frames(env_bodies(xs, stamp))
}

/// One bare frame: the record's JSON text plus `\n`.
pub fn frame_bare(u: &User) -> (r: Vec<u8>)
    ensures
        r@ == json_of_user(u.id, u.name@).push(NL),
        frame_ok(*u),
{
    let mut f = user_to_json(u);
    f.push(NL);
    f
}

/// One enveloped frame: the envelope's JSON text plus `\n`.
pub fn frame_enveloped(u: &User, done: bool) -> (r: Vec<u8>)
    ensures
        r@ == json_of_envelope(u.id, u.name@, done).push(NL),
        env_frame_ok(*u, done),
{
    let mut f = envelope_to_json(u, done);
    f.push(NL);
    f
}

/// Encode a whole sequence of records as a bare stream.
pub fn encode_bare(users: &Vec<User>) -> (r: Vec<u8>)
    ensures
        r@ == encode_bare_spec(users@),
        forall|j: int| 0 <= j < users@.len() ==> #[trigger] frame_ok(users@[j]),
{
    let ghost bs = bare_bodies(users@);
    let mut out: Vec<u8> = Vec::new();
    let mut i: usize = 0;
    proof {
        assert(bs.skip(0) =~= bs);
        assert(out@ + join_frames(bs) =~= join_frames(bs));
    }
    while i < users.len()
        invariant
            0 <= i <= users@.len(),
            bs == bare_bodies(users@),
            bs.len() == users@.len(),
            out@ + join_frames(bs.skip(i as int)) == encode_bare_spec(users@),
            forall|j: int| 0 <= j < i ==> #[trigger] frame_ok(users@[j]),
        decreases users@.len() - i,
    {
        let ghost prev = out@;
        let mut f = frame_bare(&users[i]);
        out.append(&mut f);
        proof {
            assert(bs.skip(i as int)[0] == bs[i as int]);
            assert(bs.skip(i as int).drop_first() =~= bs.skip(i as int + 1));
            assert(out@ + join_frames(bs.skip(i as int + 1))
                =~= prev + join_frames(bs.skip(i as int)));
        }
        i = i + 1;
    }
    proof {
        assert(bs.skip(users@.len() as int) =~= Seq::<Seq<u8>>::empty());
        assert(out@ + join_frames(Seq::<Seq<u8>>::empty()) =~= out@);
    }
    out
}

/// Encode a whole sequence of records as an enveloped stream; with `stamp`,
/// the last envelope carries `done = true`.
pub fn encode_enveloped(users: &Vec<User>, stamp: bool) -> (r: Vec<u8>)
    ensures
        r@ == encode_enveloped_spec(users@, stamp),
        forall|j: int| 0 <= j < users@.len()
            ==> env_frame_ok(users@[j], stamp && j == users@.len() - 1),
{
    let ghost bs = env_bodies(users@, stamp);
    let mut out: Vec<u8> = Vec::new();
    let mut i: usize = 0;
    proof {
        assert(bs.skip(0) =~= bs);
        assert(out@ + join_frames(bs) =~= join_frames(bs));
    }
    while i < users.len()
        invariant
            0 <= i <= users@.len(),
            bs == env_bodies(users@, stamp),
            bs.len() == users@.len(),
            out@ + join_frames(bs.skip(i as int)) == encode_enveloped_spec(users@, stamp),
            forall|j: int| 0 <= j < i
                ==> env_frame_ok(users@[j], stamp && j == users@.len() - 1),
        decreases users@.len() - i,
    {
        let ghost prev = out@;
        let done = stamp && i + 1 == users.len();
        proof {
            assert(done == (stamp && i as int == users@.len() - 1));
        }
        let mut f = frame_enveloped(&users[i], done);
        out.append(&mut f);
        proof {
            assert(bs.skip(i as int)[0] == bs[i as int]);
            assert(bs.skip(i as int).drop_first() =~= bs.skip(i as int + 1));
            assert(out@ + join_frames(bs.skip(i as int + 1))
                =~= prev + join_frames(bs.skip(i as int)));
        }
        i = i + 1;
    }
    proof {
        assert(bs.skip(users@.len() as int) =~= Seq::<Seq<u8>>::empty());
        assert(out@ + join_frames(Seq::<Seq<u8>>::empty()) =~= out@);
    }
    out
}

} // verus!
