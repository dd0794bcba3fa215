//! The incremental consumer: a line reframer plus per-frame decoder.
//!
//! Bytes are fed in arbitrary chunks; complete lines are decoded as soon as
//! their `\n` arrives, so the decoded prefix never depends on where the chunk
//! boundaries fell — only on the bytes fed so far. The ghost field `fed`
//! records those bytes, and the invariant ties the emitted elements to
//! `decode_lines` over `lines_of(fed)`.

use vstd::prelude::*;
use crate::record::{DecodeConfig, ItemV, Mode, RecordError, User, items_view, item_view};
use crate::framing::{
    NL, CR, tail_of, lines_of, trim, line_skip, line_item, line_closes, decode_lines,
    lines_close, tail_items, decoded_spec, byte_closed, concat_chunks, lemma_stream_snoc,
    lemma_decode_lines_snoc, lemma_closed_append, lemma_concat_chunks_take,
};
use crate::json::{utf8_check, user_from_json, envelope_from_json};

verus! {

/// The views of a sequence of byte chunks.
pub open spec fn views_of(cs: Seq<Vec<u8>>) -> Seq<Seq<u8>> {
    cs.map_values(|c: Vec<u8>| c@)
}

/// Streaming NDJSON consumer state.
///
/// `live` is true while the stream is open; it falls on a terminal element
/// (oversize frame, `done` envelope, end of input, transport failure). The
/// ghost `fed` holds every byte accepted so far; `pristine` records that no
/// out-of-band failure (`transport_error`, `http_failure`) was injected, and
/// `src_done` that `finish` was called.
pub struct Decoder {
    pub cfg: DecodeConfig,
    pub buf: Vec<u8>,
    pub results: Vec<Result<User, RecordError>>,
    pub live: bool,
    pub fed: Ghost<Seq<u8>>,
    pub pristine: Ghost<bool>,
    pub src_done: Ghost<bool>,
}

impl Decoder {
    /// The decoder's invariant: while the stream is open, the emitted
    /// elements are exactly those of the complete lines fed so far, and the
    /// buffer holds the unterminated tail; once closed without out-of-band
    /// failure, the emitted elements are the full decoded sequence of `fed`.
    pub open spec fn inv(self) -> bool {
        self.pristine@ ==> {
            if self.live {
                &&& !lines_close(lines_of(self.fed@), self.cfg)
                &&& self.buf@ == tail_of(self.fed@)
                &&& self.buf@.len() <= self.cfg.max_frame_bytes
                &&& items_view(self.results@) == decode_lines(lines_of(self.fed@), self.cfg, 0)
                &&& !self.src_done@
            } else {
                &&& items_view(self.results@) == decoded_spec(self.fed@, self.cfg)
                &&& (!self.src_done@ ==> byte_closed(self.fed@, self.cfg))
            }
        }
    }

    pub fn new(cfg: DecodeConfig) -> (d: Decoder)
        ensures
            d.inv(),
            d.cfg == cfg,
            d.live,
            d.buf@ == Seq::<u8>::empty(),
            d.results@ == Seq::<Result<User, RecordError>>::empty(),
            d.fed@ == Seq::<u8>::empty(),
            d.pristine@ == true,
            d.src_done@ == false,
    {
        let d = Decoder {
            cfg,
            buf: Vec::new(),
            results: Vec::new(),
            live: true,
            fed: Ghost(Seq::empty()),
            pristine: Ghost(true),
            src_done: Ghost(false),
        };
        proof {
            assert(lines_of(d.fed@) == Seq::<Seq<u8>>::empty());
            assert(tail_of(d.fed@) =~= d.buf@);
            assert(decode_lines(lines_of(d.fed@), d.cfg, 0) == Seq::<ItemV>::empty());
            assert(items_view(d.results@) =~= Seq::<ItemV>::empty());
        }
        d
    }

    /// Feed one byte. A no-op once the stream has closed.
    pub fn push_byte(&mut self, b: u8)
        requires
            old(self).inv(),
        ensures
            final(self).inv(),
            final(self).cfg == old(self).cfg,
            final(self).pristine@ == old(self).pristine@,
            final(self).src_done@ == old(self).src_done@,
            !old(self).live ==> *final(self) == *old(self),
            old(self).live ==> final(self).fed@ == old(self).fed@.push(b),
    {
        if !self.live {
            return;
        }
        let ghost prev_fed = self.fed@;
        let ghost prev_items = items_view(self.results@);
        proof {
            lemma_stream_snoc(prev_fed, b);
        }
        self.fed = Ghost(self.fed@.push(b));
        if b == NL {
            proof {
                lemma_decode_lines_snoc(lines_of(prev_fed), tail_of(prev_fed), self.cfg, 0);
            }
            let mut body = self.buf.split_off(0);
            let ghost line = body@;
            proof {
                assert(line =~= old(self).buf@);
                assert(self.buf@ =~= Seq::<u8>::empty());
            }
            if body.len() > 0 && body[body.len() - 1] == CR {
                body.pop();
            }
            proof {
                assert(body@ == trim(line));
            }
            if body.len() == 0 {
                // Empty frame: skipped silently.
                proof {
                    if self.pristine@ {
                        assert(line_skip(line, self.cfg));
                        assert(self.buf@ =~= tail_of(self.fed@));
                    }
                }
            } else {
                let at = self.results.len();
                let ghost n = prev_items.len() as nat;
                if !utf8_check(&body) {
                    self.results.push(Err(RecordError::InvalidUtf8 { at }));
                } else {
                    match self.cfg.mode {
                        Mode::Bare => {
                            match user_from_json(&body) {
                                Some(u) => self.results.push(Ok(u)),
                                None => self.results.push(Err(RecordError::DecodeError { at })),
                            }
                        }
                        Mode::Enveloped => {
                            match envelope_from_json(&body) {
                                Some(p) => {
                                    let done = p.1;
                                    self.results.push(Ok(p.0));
                                    if done {
                                        self.live = false;
                                    }
                                }
                                None => self.results.push(Err(RecordError::DecodeError { at })),
                            }
                        }
                    }
                }
                proof {
                    if self.pristine@ {
                        assert(!line_skip(line, self.cfg));
                        assert(at as nat == n);
                        assert(item_view(self.results@.last()) == line_item(line, self.cfg, n));
                        assert(items_view(self.results@)
                            =~= prev_items.push(line_item(line, self.cfg, n)));
                        assert(self.live == !line_closes(line, self.cfg));
                        if self.live {
                            assert(self.buf@ =~= tail_of(self.fed@));
                        } else {
                            assert(lines_close(lines_of(self.fed@), self.cfg));
                            assert(items_view(self.results@) == decoded_spec(self.fed@, self.cfg));
                        }
                    }
                }
            }
        } else {
            self.buf.push(b);
            if self.buf.len() > self.cfg.max_frame_bytes {
                let at = self.results.len();
                self.results.push(Err(RecordError::FrameTooLarge { at }));
                self.live = false;
                proof {
                    if self.pristine@ {
                        let ghost n = prev_items.len() as nat;
                        assert(at as nat == n);
                        assert(tail_of(self.fed@) =~= self.buf@);
                        assert(tail_items(tail_of(self.fed@), self.cfg, n)
                            == seq![ItemV::TooLarge { at: n }]);
                        assert(items_view(self.results@)
                            =~= prev_items + seq![ItemV::TooLarge { at: n }]);
                        assert(items_view(self.results@) == decoded_spec(self.fed@, self.cfg));
                    }
                }
            } else {
                proof {
                    if self.pristine@ {
                        assert(self.buf@ =~= tail_of(self.fed@));
                    }
                }
            }
        }
    }

    /// Feed one chunk of bytes. A no-op once the stream has closed; if the
    /// stream closes mid-chunk, the bytes up to and including the closing
    /// byte are the ones accepted.
    pub fn push_chunk(&mut self, chunk: &Vec<u8>)
        requires
            old(self).inv(),
        ensures
            final(self).inv(),
            final(self).cfg == old(self).cfg,
            final(self).pristine@ == old(self).pristine@,
            final(self).src_done@ == old(self).src_done@,
            !old(self).live ==> *final(self) == *old(self),
            old(self).live && final(self).live ==> final(self).fed@ == old(self).fed@ + chunk@,
            old(self).live && !final(self).live ==> exists|k: int|
                0 <= k <= chunk@.len() && final(self).fed@ == old(self).fed@ + chunk@.take(k),
    {
        let mut i: usize = 0;
        while i < chunk.len()
            invariant
                self.inv(),
                self.cfg == old(self).cfg,
                self.pristine@ == old(self).pristine@,
                self.src_done@ == old(self).src_done@,
                0 <= i <= chunk.len(),
                !old(self).live ==> *self == *old(self),
                old(self).live && self.live ==> self.fed@ == old(self).fed@ + chunk@.take(i as int),
                old(self).live && !self.live ==> exists|k: int|
                    0 <= k <= i && self.fed@ == old(self).fed@ + chunk@.take(k),
            decreases chunk.len() - i,
        {
            let ghost was_live = self.live;
            let ghost prev_fed = self.fed@;
            self.push_byte(chunk[i]);
            proof {
                if old(self).live {
                    if was_live {
                        assert(self.fed@ == prev_fed.push(chunk@[i as int]));
                        assert(old(self).fed@ + chunk@.take(i as int + 1)
                            =~= (old(self).fed@ + chunk@.take(i as int)).push(chunk@[i as int]));
                        if !self.live {
                            assert(0 <= i + 1 <= i + 1
                                && self.fed@ == old(self).fed@ + chunk@.take(i as int + 1));
                        }
                    } else {
                        let k0 = choose|k: int|
                            0 <= k <= i && self.fed@ == old(self).fed@ + chunk@.take(k);
                        assert(0 <= k0 <= i + 1
                            && self.fed@ == old(self).fed@ + chunk@.take(k0));
                    }
                }
            }
            i = i + 1;
        }
        proof {
            if old(self).live && self.live {
                assert(chunk@.take(chunk@.len() as int) =~= chunk@);
            }
        }
    }

    /// End of input: the unterminated tail, if any, becomes the final
    /// element (a decoded frame if such tails are accepted, otherwise
    /// `TruncatedFrame`), and the stream closes.
    pub fn finish(&mut self)
        requires
            old(self).inv(),
        ensures
            final(self).inv(),
            !final(self).live,
            final(self).cfg == old(self).cfg,
            final(self).pristine@ == old(self).pristine@,
            final(self).fed@ == old(self).fed@,
            old(self).pristine@ ==> items_view(final(self).results@)
                == decoded_spec(old(self).fed@, old(self).cfg),
    {
        if self.live {
            self.live = false;
            let ghost prev_items = items_view(self.results@);
            let ghost t = self.buf@;
            let ghost n = prev_items.len() as nat;
            if self.buf.len() > 0 {
                let at = self.results.len();
                if !self.cfg.accept_unterminated_tail {
                    self.results.push(Err(RecordError::TruncatedFrame));
                } else if !utf8_check(&self.buf) {
                    self.results.push(Err(RecordError::InvalidUtf8 { at }));
                } else {
                    match self.cfg.mode {
                        Mode::Bare => {
                            match user_from_json(&self.buf) {
                                Some(u) => self.results.push(Ok(u)),
                                None => self.results.push(Err(RecordError::DecodeError { at })),
                            }
                        }
                        Mode::Enveloped => {
                            match envelope_from_json(&self.buf) {
                                Some(p) => self.results.push(Ok(p.0)),
                                None => self.results.push(Err(RecordError::DecodeError { at })),
                            }
                        }
                    }
                }
                proof {
                    if self.pristine@ {
                        assert(at as nat == n);
                        assert(item_view(self.results@.last())
                            == tail_items(t, self.cfg, n)[0]);
                        assert(items_view(self.results@)
                            =~= prev_items + tail_items(t, self.cfg, n));
                    }
                }
            } else {
                proof {
                    if self.pristine@ {
                        assert(tail_items(t, self.cfg, n) == Seq::<ItemV>::empty());
                        assert(items_view(self.results@)
                            =~= prev_items + tail_items(t, self.cfg, n));
                    }
                }
            }
            self.buf.clear();
        }
        self.src_done = Ghost(true);
    }

    /// The underlying transport failed: a terminal `Transport` element is
    /// appended and the stream closes. A no-op once the stream has closed.
    pub fn transport_error(&mut self)
        requires
            old(self).inv(),
        ensures
            final(self).inv(),
            !final(self).live || !old(self).live,
            final(self).cfg == old(self).cfg,
            old(self).live ==> final(self).results@
                == old(self).results@.push(Err(RecordError::Transport)),
            !old(self).live ==> *final(self) == *old(self),
    {
        if self.live {
            self.results.push(Err(RecordError::Transport));
            self.live = false;
            self.pristine = Ghost(false);
        }
    }

    /// The response carried a non-success status: a terminal `HttpStatus`
    /// element is appended and the stream closes, before any frame is
    /// decoded. A no-op once the stream has closed.
    pub fn http_failure(&mut self, code: u16)
        requires
            old(self).inv(),
        ensures
            final(self).inv(),
            !final(self).live || !old(self).live,
            final(self).cfg == old(self).cfg,
            old(self).live ==> final(self).results@
                == old(self).results@.push(Err(RecordError::HttpStatus { code })),
            !old(self).live ==> *final(self) == *old(self),
    {
        if self.live {
            self.results.push(Err(RecordError::HttpStatus { code }));
            self.live = false;
            self.pristine = Ghost(false);
        }
    }
}

/// Decode a whole byte stream given as one chunk.
pub fn decode_bytes(bytes: &Vec<u8>, cfg: DecodeConfig) -> (r: Vec<Result<User, RecordError>>)
    ensures
        items_view(r@) == decoded_spec(bytes@, cfg),
{
    let mut d = Decoder::new(cfg);
    d.push_chunk(bytes);
    proof {
        if d.live {
            assert(d.fed@ =~= bytes@);
        } else {
            let k = choose|k: int| 0 <= k <= bytes@.len() && d.fed@ == Seq::<u8>::empty() + bytes@.take(k);
            assert(d.fed@ =~= bytes@.take(k));
            lemma_closed_append(d.fed@, bytes@.skip(k), d.cfg);
            assert(bytes@.take(k) + bytes@.skip(k) =~= bytes@);
        }
    }
    d.finish();
    d.results
}

/// Decode a byte stream given as a sequence of chunks. The result depends
/// only on the concatenation of the chunks, never on where their boundaries
/// fall.
pub fn decode_all(chunks: &Vec<Vec<u8>>, cfg: DecodeConfig) -> (r: Vec<Result<User, RecordError>>)
    ensures
        items_view(r@) == decoded_spec(concat_chunks(views_of(chunks@)), cfg),
{
    let ghost cs = views_of(chunks@);
    let mut d = Decoder::new(cfg);
    let mut i: usize = 0;
    while i < chunks.len()
        invariant
            d.inv(),
            d.cfg == cfg,
            d.pristine@ == true,
            d.src_done@ == false,
            0 <= i <= chunks.len(),
            cs == views_of(chunks@),
            cs.len() == chunks@.len(),
            d.live ==> d.fed@ == concat_chunks(cs.take(i as int)),
            !d.live ==> decoded_spec(concat_chunks(cs.take(i as int)), cfg)
                == decoded_spec(d.fed@, cfg),
            !d.live ==> byte_closed(concat_chunks(cs.take(i as int)), cfg),
        decreases chunks.len() - i,
    {
        let ghost was_live = d.live;
        let ghost prev_fed = d.fed@;
        d.push_chunk(&chunks[i]);
        proof {
            assert(cs[i as int] == chunks@[i as int]@);
            lemma_concat_chunks_take(cs, i as int);
            if was_live {
                if d.live {
                    assert(d.fed@ == prev_fed + cs[i as int]);
                } else {
                    let k = choose|k: int|
                        0 <= k <= cs[i as int].len() && d.fed@ == prev_fed + cs[i as int].take(k);
                    assert(byte_closed(d.fed@, cfg));
                    lemma_closed_append(d.fed@, cs[i as int].skip(k), cfg);
                    assert((prev_fed + cs[i as int].take(k)) + cs[i as int].skip(k)
                        =~= prev_fed + cs[i as int]);
                    assert(concat_chunks(cs.take(i as int + 1)) =~= prev_fed + cs[i as int]);
                }
            } else {
                assert(d.fed@ == prev_fed);
                assert(byte_closed(concat_chunks(cs.take(i as int)), cfg));
                lemma_closed_append(concat_chunks(cs.take(i as int)), cs[i as int], cfg);
            }
        }
        i = i + 1;
    }
    proof {
        assert(cs.take(chunks@.len() as int) =~= cs);
    }
    d.finish();
    d.results
}

} // verus!
