//! Laws of the log framing: a log written as a sequence of payloads
//! replays as exactly that sequence.

use vstd::prelude::*;

use crate::wal::{
    spec_read_data, spec_read_record, spec_read_rest, spec_record_bytes, spec_replay,
    spec_wal_encode, spec_wal_encode_frags, lemma_record_bytes_len, lemma_encode_at_boundary,
    zero_bytes, PayloadOutcome, RecordOutcome, RecordType, Replay, BLOCK_SIZE, HEADER_SIZE,
};

verus! {

/// A window into a window of a byte sequence is a window of it.
proof fn lemma_subrange_within(file: Seq<u8>, pos: int, len: int, a: int, b: int)
    requires
        0 <= pos,
        0 <= a <= b <= len,
        pos + len <= file.len(),
    ensures
        file.subrange(pos + a, pos + b) == file.subrange(pos, pos + len).subrange(a, b),
{
    assert(file.subrange(pos + a, pos + b) =~= file.subrange(pos, pos + len).subrange(a, b));
}

/// Adding to a position and then reducing modulo the block size is the
/// same as reducing first.
proof fn lemma_mod_add_left(p: int, l: int, m: int)
    requires
        0 < m,
    ensures
        (p + l) % m == (p % m + l) % m,
{
    vstd::arithmetic::div_mod::lemma_add_mod_noop(p, l, m);
    vstd::arithmetic::div_mod::lemma_add_mod_noop(p % m, l, m);
    vstd::arithmetic::div_mod::lemma_mod_twice(p, m);
}

/// Moving a position forward to its next block boundary lands on a
/// multiple of the block size.
proof fn lemma_advance_to_boundary(p: int)
    requires
        0 <= p,
    ensures
        (p + ((BLOCK_SIZE as int) - p % (BLOCK_SIZE as int))) % (BLOCK_SIZE as int) == 0,
{
    let b = BLOCK_SIZE as int;
    vstd::arithmetic::div_mod::lemma_fundamental_div_mod(p, b);
    vstd::arithmetic::div_mod::lemma_mod_multiples_vanish(p / b + 1, 0, b);
}

/// A whole physical record, lying within its block, parses back to its
/// type and payload.
proof fn lemma_read_record_at(file: Seq<u8>, pos: int, ty: u8, payload: Seq<u8>)
    requires
        0 <= pos,
        1 <= ty <= 4,
        (BLOCK_SIZE as int) - pos % (BLOCK_SIZE as int) >= HEADER_SIZE as int,
        payload.len() <= (BLOCK_SIZE as int) - pos % (BLOCK_SIZE as int) - (HEADER_SIZE as int),
        pos + (HEADER_SIZE as int) + payload.len() <= file.len(),
        file.subrange(pos, pos + (HEADER_SIZE as int) + payload.len()) == spec_record_bytes(
            ty,
            payload,
        ),
    ensures
        spec_read_record(file, pos) == (RecordOutcome::Rec {
            ty,
            payload,
            end: pos + (HEADER_SIZE as int) + payload.len(),
        }),
{
    vstd::bytes::lemma_auto_spec_u32_to_from_le_bytes();
    vstd::bytes::lemma_auto_spec_u16_to_from_le_bytes();
    let rec = spec_record_bytes(ty, payload);
    let l = payload.len() as int;
    let crc = crate::wal::crc32c_of(seq![ty] + payload);
    let crc_b = vstd::bytes::spec_u32_to_le_bytes(crc);
    let len_b = vstd::bytes::spec_u16_to_le_bytes(payload.len() as u16);
    assert(crc_b.len() == 4 && len_b.len() == 2);
    assert(rec.len() == 7 + l);
    // the type byte
    assert(file[pos + 6] == rec[6]);
    assert(rec[6] == ty);
    // the length field
    lemma_subrange_within(file, pos, 7 + l, 4, 6);
    assert(file.subrange(pos + 4, pos + 6) =~= len_b);
    assert(vstd::bytes::spec_u16_from_le_bytes(len_b) == payload.len() as u16);
    assert(payload.len() < 0x10000);
    // the checksum field
    lemma_subrange_within(file, pos, 7 + l, 0, 4);
    assert(file.subrange(pos, pos + 4) =~= crc_b);
    assert(vstd::bytes::spec_u32_from_le_bytes(crc_b) == crc);
    // the payload
    lemma_subrange_within(file, pos, 7 + l, 7, 7 + l);
    assert(file.subrange(pos + 7, pos + 7 + l) =~= payload);
}

/// Reading at a position whose block has fewer than 7 bytes left skips
/// to the boundary.
proof fn lemma_read_record_skips_trailer(file: Seq<u8>, pos: int)
    requires
        0 <= pos < file.len(),
        (BLOCK_SIZE as int) - pos % (BLOCK_SIZE as int) < HEADER_SIZE as int,
        pos + ((BLOCK_SIZE as int) - pos % (BLOCK_SIZE as int)) <= file.len(),
    ensures
        spec_read_record(file, pos) == spec_read_record(
            file,
            pos + ((BLOCK_SIZE as int) - pos % (BLOCK_SIZE as int)),
        ),
{
}

/// Reading the writer's encoding of a payload's remaining fragments
/// reassembles exactly those bytes and stops right after them. With
/// `is_begin` the fragments open a payload and are read as one; without
/// it they continue a payload whose earlier bytes are `acc`.
proof fn lemma_read_encoded_frags(
    file: Seq<u8>,
    pos: int,
    data: Seq<u8>,
    is_begin: bool,
    acc: Seq<u8>,
)
    requires
        0 <= pos,
        pos + spec_wal_encode_frags(pos % (BLOCK_SIZE as int), data, is_begin).len()
            <= file.len(),
        file.subrange(
            pos,
            pos + spec_wal_encode_frags(pos % (BLOCK_SIZE as int), data, is_begin).len(),
        ) == spec_wal_encode_frags(pos % (BLOCK_SIZE as int), data, is_begin),
    ensures
        is_begin ==> spec_read_data(file, pos) == (PayloadOutcome::Payload {
            data,
            end: pos + spec_wal_encode_frags(pos % (BLOCK_SIZE as int), data, is_begin).len(),
        }),
        !is_begin ==> spec_read_rest(file, pos, acc) == (PayloadOutcome::Payload {
            data: acc + data,
            end: pos + spec_wal_encode_frags(pos % (BLOCK_SIZE as int), data, is_begin).len(),
        }),
    decreases data.len(), ((BLOCK_SIZE as int) - pos % (BLOCK_SIZE as int)) % (BLOCK_SIZE as int),
{
    let b = BLOCK_SIZE as int;
    let h = HEADER_SIZE as int;
    let off = pos % b;
    let enc = spec_wal_encode_frags(off, data, is_begin);
    let left = b - off;
    let pad = if left < h {
        zero_bytes(left)
    } else {
        Seq::<u8>::empty()
    };
    let o = if left < h {
        0int
    } else {
        off
    };
    let avail = b - o - h;
    let p2 = pos + pad.len();
    assert(p2 % b == o) by {
        if left < h {
            lemma_advance_to_boundary(pos);
        }
    }
    if left < h {
        // the reader skips the zero-filled trailer without inspecting it
        lemma_read_record_skips_trailer(file, pos);
        assert(p2 == pos + left);
    }
    if data.len() <= avail {
        let ty = RecordType::spec_calc(is_begin, true).as_byte();
        assert(enc == pad + spec_record_bytes(ty, data));
        lemma_record_bytes_len(ty, data);
        assert(enc.len() == pad.len() + h + data.len());
        assert(file.subrange(p2, p2 + h + data.len()) == spec_record_bytes(ty, data)) by {
            lemma_subrange_within(file, pos, enc.len() as int, pad.len() as int, enc.len() as int);
            assert(enc.subrange(pad.len() as int, enc.len() as int) =~= spec_record_bytes(
                ty,
                data,
            ));
        }
        assert(1 <= ty <= 4);
        lemma_read_record_at(file, p2, ty, data);
        assert(spec_read_record(file, pos) == (RecordOutcome::Rec {
            ty,
            payload: data,
            end: pos + enc.len(),
        }));
        if is_begin {
            assert(ty == 1);
        } else {
            assert(ty == 4);
        }
    } else {
        let ty = RecordType::spec_calc(is_begin, false).as_byte();
        let frag = data.take(avail);
        let rest = data.skip(avail);
        let rest_enc = spec_wal_encode_frags(b, rest, false);
        assert(enc == pad + spec_record_bytes(ty, frag) + rest_enc);
        lemma_record_bytes_len(ty, frag);
        let mid = p2 + h + avail;
        assert(enc.len() == pad.len() + h + avail + rest_enc.len());
        assert(file.subrange(p2, p2 + h + avail) == spec_record_bytes(ty, frag)) by {
            lemma_subrange_within(
                file,
                pos,
                enc.len() as int,
                pad.len() as int,
                pad.len() + h + avail,
            );
            assert(enc.subrange(pad.len() as int, pad.len() + h + avail) =~= spec_record_bytes(
                ty,
                frag,
            ));
        }
        assert(1 <= ty <= 4);
        lemma_read_record_at(file, p2, ty, frag);
        assert(spec_read_record(file, pos) == (RecordOutcome::Rec {
            ty,
            payload: frag,
            end: mid,
        }));
        // the next fragment starts exactly at the block boundary
        assert(mid % b == 0) by {
            vstd::arithmetic::div_mod::lemma_fundamental_div_mod(p2, b);
            vstd::arithmetic::div_mod::lemma_mod_multiples_vanish(p2 / b + 1, 0, b);
        }
        lemma_encode_at_boundary(rest, false);
        assert(spec_wal_encode_frags(mid % b, rest, false) == rest_enc);
        assert(file.subrange(mid, mid + rest_enc.len()) == rest_enc) by {
            lemma_subrange_within(
                file,
                pos,
                enc.len() as int,
                pad.len() + h + avail,
                enc.len() as int,
            );
            assert(enc.subrange(pad.len() + h + avail, enc.len() as int) =~= rest_enc);
        }
        let acc2 = if is_begin {
            frag
        } else {
            acc + frag
        };
        lemma_read_encoded_frags(file, mid, rest, false, acc2);
        assert(spec_read_rest(file, mid, acc2) == (PayloadOutcome::Payload {
            data: acc2 + rest,
            end: mid + rest_enc.len(),
        }));
        assert(mid + rest_enc.len() == pos + enc.len());
        if is_begin {
            assert(ty == 2);
            assert(spec_read_data(file, pos) == spec_read_rest(file, mid, frag));
            assert(frag + rest =~= data);
        } else {
            assert(ty == 3);
            assert(spec_read_rest(file, pos, acc) == spec_read_rest(file, mid, acc + frag));
            assert((acc + frag) + rest =~= acc + data);
        }
    }
}

/// The bytes the writer appends for a whole sequence of payloads,
/// written one after the other from block offset `off`.
pub open spec fn spec_wal_encode_list(off: int, datas: Seq<Seq<u8>>) -> Seq<u8>
    decreases datas.len(),
{
    if datas.len() == 0 {
        Seq::empty()
    } else {
        let e = spec_wal_encode(off, datas[0]);
        e + spec_wal_encode_list((off + e.len()) % (BLOCK_SIZE as int), datas.skip(1))
    }
}

/// Replaying a log whose tail from `pos` is exactly the encoding of
/// `datas` yields `datas` and ends cleanly.
proof fn lemma_replay_encoded(file: Seq<u8>, pos: int, datas: Seq<Seq<u8>>)
    requires
        0 <= pos <= file.len(),
        file.subrange(pos, file.len() as int) == spec_wal_encode_list(
            pos % (BLOCK_SIZE as int),
            datas,
        ),
    ensures
        spec_replay(file, pos) == (Replay { payloads: datas, fault: None }),
    decreases datas.len(),
{
    let b = BLOCK_SIZE as int;
    if datas.len() == 0 {
        assert(file.subrange(pos, file.len() as int).len() == 0);
        assert(pos == file.len());
        assert(spec_read_record(file, pos) is Eof);
        assert(spec_replay(file, pos) == (Replay { payloads: Seq::empty(), fault: None }));
        assert(datas =~= Seq::<Seq<u8>>::empty());
    } else {
        let e = spec_wal_encode(pos % b, datas[0]);
        let rest_list = spec_wal_encode_list((pos % b + e.len()) % b, datas.skip(1));
        assert(file.subrange(pos, file.len() as int) == e + rest_list);
        assert(file.len() - pos == e.len() + rest_list.len());
        assert(file.subrange(pos, pos + e.len()) == e) by {
            lemma_subrange_within(file, pos, file.len() - pos, 0, e.len() as int);
            assert((e + rest_list).subrange(0, e.len() as int) =~= e);
        }
        lemma_read_encoded_frags(file, pos, datas[0], true, Seq::empty());
        let end = pos + e.len();
        assert(spec_read_data(file, pos) == (PayloadOutcome::Payload { data: datas[0], end }));
        assert(file.subrange(end, file.len() as int) == spec_wal_encode_list(end % b, datas.skip(1)))
            by {
            lemma_subrange_within(file, pos, file.len() - pos, e.len() as int, file.len() - pos);
            assert((e + rest_list).subrange(e.len() as int, (e + rest_list).len() as int)
                =~= rest_list);
            lemma_mod_add_left(pos, e.len() as int, b);
        }
        lemma_replay_encoded(file, end, datas.skip(1));
        assert(spec_replay(file, end) == (Replay { payloads: datas.skip(1), fault: None }));
        assert(spec_replay(file, pos).payloads == seq![datas[0]] + datas.skip(1));
        assert(seq![datas[0]] + datas.skip(1) =~= datas);
    }
}

/// Framing round trip: writing any finite sequence of payloads into an
/// empty log and then replaying the log yields exactly those payloads,
/// in order, ending at a clean end of log.
pub proof fn lemma_wal_round_trip(datas: Seq<Seq<u8>>)
    ensures
        spec_replay(spec_wal_encode_list(0, datas), 0) == (Replay {
            payloads: datas,
            fault: None,
        }),
{
    let file = spec_wal_encode_list(0, datas);
    assert(file.subrange(0, file.len() as int) =~= file);
    lemma_replay_encoded(file, 0, datas);
}

/// A window of a truncated sequence below the cut is a window of the
/// whole.
proof fn lemma_take_subrange(s: Seq<u8>, l: int, a: int, b: int)
    requires
        0 <= a <= b <= l <= s.len(),
    ensures
        s.take(l).subrange(a, b) == s.subrange(a, b),
{
    assert(s.take(l).subrange(a, b) =~= s.subrange(a, b));
}

/// A physical record whose stored checksum does not match the checksum
/// of its own type byte and payload is rejected.
pub proof fn lemma_crc_rejection(file: Seq<u8>, pos: int)
    requires
        0 <= pos,
        pos + (HEADER_SIZE as int) <= file.len(),
        (BLOCK_SIZE as int) - pos % (BLOCK_SIZE as int) >= HEADER_SIZE as int,
        1 <= file[pos + 6] <= 4,
        pos + (HEADER_SIZE as int) + vstd::bytes::spec_u16_from_le_bytes(
            file.subrange(pos + 4, pos + 6),
        ) <= file.len(),
        vstd::bytes::spec_u32_from_le_bytes(file.subrange(pos, pos + 4)) != crate::wal::crc32c_of(
            seq![file[pos + 6]] + file.subrange(
                pos + (HEADER_SIZE as int),
                pos + (HEADER_SIZE as int) + vstd::bytes::spec_u16_from_le_bytes(
                    file.subrange(pos + 4, pos + 6),
                ),
            ),
        ),
    ensures
        spec_read_record(file, pos) == RecordOutcome::Fail(crate::wal::WalError::CrcMismatch),
        spec_read_data(file, pos) == PayloadOutcome::Fail(crate::wal::WalError::CrcMismatch),
{
}

/// Reading a log that breaks off strictly inside the encoding of a
/// payload's remaining fragments never yields a payload: it ends
/// cleanly before the payload's first fragment or fails.
#[verifier::rlimit(80)]
#[verifier::spinoff_prover]
proof fn lemma_read_torn_frags(
    file: Seq<u8>,
    pos: int,
    data: Seq<u8>,
    is_begin: bool,
    acc: Seq<u8>,
)
    requires
        0 <= pos <= file.len(),
        file.len() - pos < spec_wal_encode_frags(pos % (BLOCK_SIZE as int), data, is_begin).len(),
        file.subrange(pos, file.len() as int) == spec_wal_encode_frags(
            pos % (BLOCK_SIZE as int),
            data,
            is_begin,
        ).take(file.len() - pos),
    ensures
        is_begin ==> !(spec_read_data(file, pos) is Payload),
        !is_begin ==> spec_read_rest(file, pos, acc) is Fail,
    decreases data.len(), ((BLOCK_SIZE as int) - pos % (BLOCK_SIZE as int)) % (BLOCK_SIZE as int),
{
    let b = BLOCK_SIZE as int;
    let h = HEADER_SIZE as int;
    let off = pos % b;
    let enc = spec_wal_encode_frags(off, data, is_begin);
    let left = b - off;
    let pad = if left < h {
        zero_bytes(left)
    } else {
        Seq::<u8>::empty()
    };
    let o = if left < h {
        0int
    } else {
        off
    };
    let avail = b - o - h;
    let cut = file.len() - pos;
    let is_end = data.len() <= avail;
    let cur = if is_end {
        data.len() as int
    } else {
        avail
    };
    let frag = data.take(cur);
    let tyb = RecordType::spec_calc(is_begin, is_end).as_byte();
    let rec = spec_record_bytes(tyb, frag);
    lemma_record_bytes_len(tyb, frag);
    if is_end {
        assert(data.take(data.len() as int) =~= data);
        assert(enc == pad + rec);
    } else {
        assert(enc == pad + rec + spec_wal_encode_frags(b, data.skip(avail), false));
    }
    let pl = pad.len() as int;
    let p2 = pos + pl;
    if cut <= pl {
        // the cut lies in the zero fill: the reader skips to the end
        // of the log and sees a clean end
        if pos == file.len() {
            assert(spec_read_record(file, pos) is Eof);
        } else {
            assert(left < h);
            assert(pos + left >= file.len());
            assert(spec_read_record(file, pos) == spec_read_record(file, file.len() as int));
            assert(spec_read_record(file, pos) is Eof);
        }
    } else {
        assert(p2 % b == o) by {
            if left < h {
                lemma_advance_to_boundary(pos);
            }
        }
        if left < h {
            lemma_read_record_skips_trailer(file, pos);
        }
        if cut < pl + h {
            // the cut lies in the record header
            assert(file.len() - p2 < h);
            assert(p2 < file.len());
            assert(b - p2 % b >= h);
            assert(spec_read_record(file, p2) == RecordOutcome::Fail(
                crate::wal::WalError::UnexpectedEof,
            ));
        } else {
            // the whole header is present and carries the fragment's
            // length and type
            vstd::bytes::lemma_auto_spec_u16_to_from_le_bytes();
            assert(file[p2 + 6] == tyb) by {
                let idx = pl + 6;
                assert(file.subrange(pos, file.len() as int)[idx] == enc.take(cut)[idx]);
                assert(enc[pl + 6] == rec[6]);
            }
            assert(file.subrange(p2 + 4, p2 + 6) == rec.subrange(4, 6)) by {
                assert(file.subrange(p2 + 4, p2 + 6) =~= file.subrange(pos, file.len() as int)
                    .subrange(pl + 4, pl + 6));
                lemma_take_subrange(enc, cut, pl + 4, pl + 6);
                assert(enc.subrange(pl + 4, pl + 6) =~= rec.subrange(4, 6));
            }
            assert(vstd::bytes::spec_u16_from_le_bytes(file.subrange(p2 + 4, p2 + 6))
                == frag.len() as u16) by {
                assert(rec.subrange(4, 6) =~= vstd::bytes::spec_u16_to_le_bytes(
                    frag.len() as u16,
                ));
            }
            assert(frag.len() < 0x10000);
            if cut < pl + h + cur {
                // the cut lies in the fragment's payload
                assert(file.len() - (p2 + h) < cur);
                assert(spec_read_record(file, p2) == RecordOutcome::Fail(
                    crate::wal::WalError::UnexpectedEof,
                ));
            } else {
                // the fragment is whole, so the cut lies in a later
                // fragment of the same payload
                assert(!is_end);
                assert(file.subrange(p2, p2 + h + cur) == rec) by {
                    assert(file.subrange(p2, p2 + h + cur) =~= file.subrange(
                        pos,
                        file.len() as int,
                    ).subrange(pl, pl + h + cur));
                    lemma_take_subrange(enc, cut, pl, pl + h + cur);
                    assert(enc.subrange(pl, pl + h + cur) =~= rec);
                }
                lemma_read_record_at(file, p2, tyb, frag);
                let mid = p2 + h + cur;
                assert(spec_read_record(file, pos) == (RecordOutcome::Rec {
                    ty: tyb,
                    payload: frag,
                    end: mid,
                }));
                assert(mid % b == 0) by {
                    vstd::arithmetic::div_mod::lemma_fundamental_div_mod(p2, b);
                    vstd::arithmetic::div_mod::lemma_mod_multiples_vanish(p2 / b + 1, 0, b);
                }
                let rest = data.skip(avail);
                let rest_enc = spec_wal_encode_frags(b, rest, false);
                lemma_encode_at_boundary(rest, false);
                assert(file.len() - mid < rest_enc.len());
                assert(file.subrange(mid, file.len() as int) == rest_enc.take(file.len() - mid))
                    by {
                    assert(file.subrange(mid, file.len() as int) =~= file.subrange(
                        pos,
                        file.len() as int,
                    ).subrange(pl + h + cur, cut));
                    lemma_take_subrange(enc, cut, pl + h + cur, cut);
                    assert(enc.subrange(pl + h + cur, cut) =~= rest_enc.take(
                        file.len() - mid,
                    ));
                }
                let acc2 = if is_begin {
                    frag
                } else {
                    acc + frag
                };
                lemma_read_torn_frags(file, mid, rest, false, acc2);
                if is_begin {
                    assert(tyb == 2);
                    assert(spec_read_data(file, pos) == spec_read_rest(file, mid, frag));
                } else {
                    assert(tyb == 3);
                    assert(spec_read_rest(file, pos, acc) == spec_read_rest(
                        file,
                        mid,
                        acc + frag,
                    ));
                }
            }
        }
    }
}

/// Replaying a log whose tail from `pos` is a prefix, possibly cut
/// short, of the encoding of `datas` yields a prefix of `datas`.
#[verifier::rlimit(80)]
#[verifier::spinoff_prover]
proof fn lemma_replay_truncated(file: Seq<u8>, pos: int, datas: Seq<Seq<u8>>)
    requires
        0 <= pos <= file.len(),
        file.len() - pos <= spec_wal_encode_list(pos % (BLOCK_SIZE as int), datas).len(),
        file.subrange(pos, file.len() as int) == spec_wal_encode_list(
            pos % (BLOCK_SIZE as int),
            datas,
        ).take(file.len() - pos),
    ensures
        ({
            let r = spec_replay(file, pos);
            r.payloads.len() <= datas.len() && r.payloads == datas.take(r.payloads.len() as int)
        }),
    decreases datas.len(),
{
    let b = BLOCK_SIZE as int;
    let cut = file.len() - pos;
    if datas.len() == 0 {
        assert(pos == file.len());
        assert(spec_read_record(file, pos) is Eof);
        assert(spec_replay(file, pos).payloads =~= datas.take(0));
    } else {
        let e = spec_wal_encode(pos % b, datas[0]);
        let rest_list = spec_wal_encode_list((pos % b + e.len()) % b, datas.skip(1));
        let enc = spec_wal_encode_list(pos % b, datas);
        assert(enc == e + rest_list);
        if cut < e.len() {
            // the cut lies in the first payload's encoding: it is lost,
            // and nothing was read before it
            assert(file.subrange(pos, file.len() as int) == e.take(cut)) by {
                assert(enc.take(cut) =~= e.take(cut));
            }
            lemma_read_torn_frags(file, pos, datas[0], true, Seq::empty());
            let r = spec_replay(file, pos);
            assert(r.payloads.len() == 0);
            assert(r.payloads =~= datas.take(0));
        } else {
            assert(file.subrange(pos, pos + e.len()) == e) by {
                lemma_subrange_within(file, pos, cut, 0, e.len() as int);
                assert(enc.take(cut).subrange(0, e.len() as int) =~= e);
            }
            lemma_read_encoded_frags(file, pos, datas[0], true, Seq::empty());
            let end = pos + e.len();
            assert(spec_read_data(file, pos) == (PayloadOutcome::Payload {
                data: datas[0],
                end,
            }));
            assert(file.subrange(end, file.len() as int) == spec_wal_encode_list(
                end % b,
                datas.skip(1),
            ).take(file.len() - end)) by {
                lemma_subrange_within(file, pos, cut, e.len() as int, cut);
                assert(enc.take(cut).subrange(e.len() as int, cut) =~= rest_list.take(
                    cut - e.len(),
                ));
                lemma_mod_add_left(pos, e.len() as int, b);
            }
            lemma_replay_truncated(file, end, datas.skip(1));
            let r2 = spec_replay(file, end);
            let r = spec_replay(file, pos);
            assert(r.payloads == seq![datas[0]] + r2.payloads);
            assert(r.payloads.len() == 1 + r2.payloads.len());
            assert(r.payloads =~= datas.take(r.payloads.len() as int)) by {
                assert(r2.payloads == datas.skip(1).take(r2.payloads.len() as int));
            }
        }
    }
}

/// Torn-tail tolerance: truncating an encoded log at any byte and
/// replaying it yields a prefix of the payloads that were written;
/// interior payloads are never altered, only a tail can be lost.
pub proof fn lemma_torn_tail(datas: Seq<Seq<u8>>, c: int)
    requires
        0 <= c <= spec_wal_encode_list(0, datas).len(),
    ensures
        ({
            let r = spec_replay(spec_wal_encode_list(0, datas).take(c), 0);
            r.payloads.len() <= datas.len() && r.payloads == datas.take(r.payloads.len() as int)
        }),
{
    let file = spec_wal_encode_list(0, datas).take(c);
    assert(file.subrange(0, file.len() as int) =~= file);
    lemma_replay_truncated(file, 0, datas);
}

/// The log payloads of a sequence of key/value writes.
pub open spec fn spec_kv_payload_list(pairs: Seq<(Seq<u8>, Seq<u8>)>) -> Seq<Seq<u8>> {
    pairs.map_values(|p: (Seq<u8>, Seq<u8>)| crate::wal::spec_kv_payload(p.0, p.1))
}

/// Replaying a log whose tail from `pos` is exactly the encoding of the
/// writes `pairs` rebuilds the table those writes leave behind.
proof fn lemma_db_init_encoded(
    file: Seq<u8>,
    pos: int,
    pairs: Seq<(Seq<u8>, Seq<u8>)>,
    m: Map<Seq<u8>, Seq<u8>>,
)
    requires
        0 <= pos <= file.len(),
        forall|i: int|
            0 <= i < pairs.len() ==> (#[trigger] pairs[i]).0.len() < 0x1_0000_0000 && pairs[i].1.len()
                < 0x1_0000_0000,
        file.subrange(pos, file.len() as int) == spec_wal_encode_list(
            pos % (BLOCK_SIZE as int),
            spec_kv_payload_list(pairs),
        ),
    ensures
        crate::db::spec_db_init_from(file, pos, m) == Ok::<_, crate::wal::WalError>(
            crate::db::spec_mem_after(m, pairs),
        ),
    decreases pairs.len(),
{
    let b = BLOCK_SIZE as int;
    let datas = spec_kv_payload_list(pairs);
    if pairs.len() == 0 {
        assert(pos == file.len());
        assert(spec_read_record(file, pos) is Eof);
    } else {
        let p0 = crate::wal::spec_kv_payload(pairs[0].0, pairs[0].1);
        assert(datas.len() == pairs.len());
        assert(datas[0] == p0);
        let e = spec_wal_encode(pos % b, p0);
        let rest_list = spec_wal_encode_list((pos % b + e.len()) % b, datas.skip(1));
        assert(spec_wal_encode_list(pos % b, datas) == e + rest_list);
        assert(file.len() - pos == e.len() + rest_list.len());
        assert(file.subrange(pos, pos + e.len()) == e) by {
            lemma_subrange_within(file, pos, file.len() - pos, 0, e.len() as int);
            assert((e + rest_list).subrange(0, e.len() as int) =~= e);
        }
        lemma_read_encoded_frags(file, pos, p0, true, Seq::empty());
        let end = pos + e.len();
        assert(spec_read_data(file, pos) == (PayloadOutcome::Payload { data: p0, end }));
        crate::wal::lemma_kv_round_trip(pairs[0].0, pairs[0].1);
        assert(datas.skip(1) =~= spec_kv_payload_list(pairs.skip(1)));
        assert(file.subrange(end, file.len() as int) == spec_wal_encode_list(
            end % b,
            spec_kv_payload_list(pairs.skip(1)),
        )) by {
            lemma_subrange_within(file, pos, file.len() - pos, e.len() as int, file.len() - pos);
            assert((e + rest_list).subrange(e.len() as int, (e + rest_list).len() as int)
                =~= rest_list);
            lemma_mod_add_left(pos, e.len() as int, b);
        }
        lemma_db_init_encoded(file, end, pairs.skip(1), m.insert(pairs[0].0, pairs[0].1));
    }
}

/// Store round trip: a log holding exactly the writes `pairs`, framed in
/// order into an empty log, replays at open into the table those writes
/// leave behind, with the latest value per key.
pub proof fn lemma_db_replay_round_trip(pairs: Seq<(Seq<u8>, Seq<u8>)>)
    requires
        forall|i: int|
            0 <= i < pairs.len() ==> (#[trigger] pairs[i]).0.len() < 0x1_0000_0000 && pairs[i].1.len()
                < 0x1_0000_0000,
    ensures
        crate::db::spec_db_init(spec_wal_encode_list(0, spec_kv_payload_list(pairs))) == Ok::<
            _,
            crate::wal::WalError,
        >(crate::db::spec_mem_after(Map::empty(), pairs)),
{
    let file = spec_wal_encode_list(0, spec_kv_payload_list(pairs));
    assert(file.subrange(0, file.len() as int) =~= file);
    lemma_db_init_encoded(file, 0, pairs, Map::empty());
}

} // verus!
