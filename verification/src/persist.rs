use vstd::bytes::{
    lemma_auto_spec_u64_to_from_le_bytes, spec_u64_from_le_bytes, spec_u64_to_le_bytes,
    u64_from_le_bytes, u64_to_le_bytes,
};
use vstd::prelude::*;
use vstd::slice::{slice_subrange, slice_to_vec};

verus! {

// The persistent state of a peer (its term, its vote and its log) is stored
// as bytes:
//
//   term: 8 bytes, little endian
//   vote: one byte 0 for none, or one byte 1 followed by the candidate's
//         index in 8 bytes, little endian
//   then each log entry in order: its term (8 bytes), the length of its
//   command (8 bytes), and the command's bytes.

/// A log as the model sees it: each command by its bytes, with its term.
pub open spec fn log_view(logs: Seq<(Vec<u8>, u64)>) -> Seq<(Seq<u8>, u64)> {
    logs.map_values(|e: (Vec<u8>, u64)| (e.0@, e.1))
}

/// The bytes of a vote.
pub open spec fn encode_vote(v: Option<usize>) -> Seq<u8> {
    match v {
        None => seq![0u8],
        Some(c) => seq![1u8] + spec_u64_to_le_bytes(c as u64),
    }
}

/// The bytes of one log entry.
pub open spec fn encode_entry(e: (Seq<u8>, u64)) -> Seq<u8> {
    spec_u64_to_le_bytes(e.1) + spec_u64_to_le_bytes(e.0.len() as u64) + e.0
}

/// The bytes of a sequence of log entries, one after the other.
pub open spec fn encode_entries(l: Seq<(Seq<u8>, u64)>) -> Seq<u8>
    decreases l.len(),
{
    if l.len() == 0 {
        Seq::empty()
    } else {
        encode_entry(l[0]) + encode_entries(l.drop_first())
    }
}

/// The bytes of a persistent state.
pub open spec fn encode_state(term: u64, voted_for: Option<usize>, logs: Seq<(Seq<u8>, u64)>) -> Seq<u8> {
    spec_u64_to_le_bytes(term) + encode_vote(voted_for) + encode_entries(logs)
}

/// Reading log entries back from bytes: `None` where the bytes are no
/// sequence of encoded entries.
pub open spec fn decode_entries(b: Seq<u8>) -> Option<Seq<(Seq<u8>, u64)>>
    decreases b.len(),
{
    if b.len() == 0 {
        Some(Seq::empty())
    } else if b.len() < 16 {
        None
    } else {
        let t = spec_u64_from_le_bytes(b.subrange(0, 8));
        let n = spec_u64_from_le_bytes(b.subrange(8, 16));
        if n > b.len() - 16 {
            None
        } else {
            match decode_entries(b.skip(16 + n)) {
                Some(rest) => Some(seq![(b.subrange(16, 16 + n), t)] + rest),
                None => None,
            }
        }
    }
}

/// Reading a persistent state back from bytes: term, vote and log, or `None`
/// where the bytes are malformed.
pub open spec fn decode_state(b: Seq<u8>) -> Option<(u64, Option<usize>, Seq<(Seq<u8>, u64)>)> {
    if b.len() < 9 {
        None
    } else {
        let t = spec_u64_from_le_bytes(b.subrange(0, 8));
        if b[8] == 0 {
            match decode_entries(b.skip(9)) {
                Some(l) => Some((t, None, l)),
                None => None,
            }
        } else if b[8] == 1 && b.len() >= 17 {
            let v = spec_u64_from_le_bytes(b.subrange(9, 17));
            if v > usize::MAX {
                None
            } else {
                match decode_entries(b.skip(17)) {
                    Some(l) => Some((t, Some(v as usize), l)),
                    None => None,
                }
            }
        } else {
            None
        }
    }
}

/// Encoding entries one after the other appends their bytes.
pub proof fn lemma_encode_entries_push(l: Seq<(Seq<u8>, u64)>, e: (Seq<u8>, u64))
    ensures
        encode_entries(l.push(e)) == encode_entries(l) + encode_entry(e),
    decreases l.len(),
{
    if l.len() == 0 {
        assert(l.push(e).drop_first() =~= Seq::<(Seq<u8>, u64)>::empty());
        assert(encode_entries(l.push(e).drop_first()) == Seq::<u8>::empty());
        assert(l.push(e)[0] == e);
        assert(encode_entries(l) == Seq::<u8>::empty());
        assert(encode_entries(l.push(e)) =~= encode_entries(l) + encode_entry(e));
    } else {
        lemma_encode_entries_push(l.drop_first(), e);
        assert(l.push(e).drop_first() =~= l.drop_first().push(e));
        assert(l.push(e)[0] == l[0]);
        assert(encode_entries(l.push(e)) == encode_entry(l[0]) + encode_entries(l.drop_first().push(e)));
        assert(encode_entries(l.push(e)) =~= encode_entries(l) + encode_entry(e));
    }
}

/// Entries read back from bytes are no more, and no longer, than the bytes.
pub proof fn lemma_decoded_entries_fit(b: Seq<u8>)
    requires
        decode_entries(b) is Some,
    ensures
        decode_entries(b).unwrap().len() <= b.len(),
        forall|i: int|
            0 <= i < decode_entries(b).unwrap().len() ==> #[trigger] decode_entries(b).unwrap()[i].0.len()
                <= b.len(),
    decreases b.len(),
{
    if b.len() > 0 {
        let n = spec_u64_from_le_bytes(b.subrange(8, 16));
        lemma_decoded_entries_fit(b.skip(16 + n));
        let l = decode_entries(b).unwrap();
        let rest = decode_entries(b.skip(16 + n)).unwrap();
        assert forall|i: int| 0 <= i < l.len() implies #[trigger] l[i].0.len() <= b.len() by {
            if i > 0 {
                assert(l[i] == rest[i - 1]);
            }
        }
    }
}

/// A persistent state read back from bytes has a log no longer, and commands
/// no longer, than the bytes.
pub proof fn lemma_decoded_state_fits(b: Seq<u8>)
    requires
        decode_state(b) is Some,
    ensures
        decode_state(b).unwrap().2.len() <= b.len(),
        forall|i: int|
            0 <= i < decode_state(b).unwrap().2.len() ==> #[trigger] decode_state(b).unwrap().2[i].0.len()
                <= b.len(),
{
    if b[8] == 0 {
        lemma_decoded_entries_fit(b.skip(9));
    } else {
        lemma_decoded_entries_fit(b.skip(17));
    }
}

/// Encoded entries read back as themselves.
pub proof fn lemma_entries_round_trip(l: Seq<(Seq<u8>, u64)>)
    requires
        forall|i: int| 0 <= i < l.len() ==> #[trigger] l[i].0.len() <= u64::MAX,
    ensures
        decode_entries(encode_entries(l)) == Some(l),
    decreases l.len(),
{
    lemma_auto_spec_u64_to_from_le_bytes();
    if l.len() > 0 {
        let (c, t) = l[0];
        let rest = l.drop_first();
        assert forall|i: int| 0 <= i < rest.len() implies #[trigger] rest[i].0.len() <= u64::MAX by {
            assert(rest[i] == l[i + 1]);
        }
        lemma_entries_round_trip(rest);
        let b = encode_entries(l);
        let n = c.len() as u64;
        assert(l[0].0.len() <= u64::MAX);
        assert(b.subrange(0, 8) =~= spec_u64_to_le_bytes(t));
        assert(b.subrange(8, 16) =~= spec_u64_to_le_bytes(n));
        assert(b.subrange(16, 16 + n) =~= c);
        assert(b.skip(16 + n) =~= encode_entries(rest));
        assert(seq![(c, t)] + rest =~= l);
    }
}

/// Bytes that read back as entries are exactly the encoding of those entries.
pub proof fn lemma_entries_canonical(b: Seq<u8>)
    requires
        decode_entries(b) is Some,
    ensures
        encode_entries(decode_entries(b).unwrap()) == b,
    decreases b.len(),
{
    lemma_auto_spec_u64_to_from_le_bytes();
    if b.len() > 0 {
        let t = spec_u64_from_le_bytes(b.subrange(0, 8));
        let n = spec_u64_from_le_bytes(b.subrange(8, 16));
        let c = b.subrange(16, 16 + n);
        lemma_entries_canonical(b.skip(16 + n));
        let rest = decode_entries(b.skip(16 + n)).unwrap();
        let l = decode_entries(b).unwrap();
        assert(l == seq![(c, t)] + rest);
        assert(l.drop_first() =~= rest);
        assert(l[0] == (c, t));
        assert(spec_u64_to_le_bytes(spec_u64_from_le_bytes(b.subrange(0, 8))) == b.subrange(0, 8));
        assert(spec_u64_to_le_bytes(spec_u64_from_le_bytes(b.subrange(8, 16))) == b.subrange(8, 16));
        assert(c.len() as u64 == n);
        assert(encode_entries(l) =~= b);
    }
}

/// A persistent state read back from the bytes it was encoded to.
pub proof fn lemma_state_round_trip(term: u64, voted_for: Option<usize>, logs: Seq<(Seq<u8>, u64)>)
    requires
        forall|i: int| 0 <= i < logs.len() ==> #[trigger] logs[i].0.len() <= u64::MAX,
    ensures
        decode_state(encode_state(term, voted_for, logs)) == Some((term, voted_for, logs)),
{
    lemma_auto_spec_u64_to_from_le_bytes();
    lemma_entries_round_trip(logs);
    let b = encode_state(term, voted_for, logs);
    assert(b.subrange(0, 8) =~= spec_u64_to_le_bytes(term));
    match voted_for {
        None => {
            assert(b[8] == 0);
            assert(b.skip(9) =~= encode_entries(logs));
        },
        Some(c) => {
            assert(b[8] == 1);
            assert(b.subrange(9, 17) =~= spec_u64_to_le_bytes(c as u64));
            assert(b.skip(17) =~= encode_entries(logs));
        },
    }
}

/// Bytes that read back as a persistent state are exactly its encoding.
pub proof fn lemma_state_canonical(b: Seq<u8>)
    requires
        decode_state(b) is Some,
    ensures
        ({
            let (t, v, l) = decode_state(b).unwrap();
            encode_state(t, v, l) == b
        }),
{
    lemma_auto_spec_u64_to_from_le_bytes();
    let (t, v, l) = decode_state(b).unwrap();
    assert(spec_u64_to_le_bytes(spec_u64_from_le_bytes(b.subrange(0, 8))) == b.subrange(0, 8));
    if b[8] == 0 {
        lemma_entries_canonical(b.skip(9));
        assert(encode_state(t, v, l) =~= b);
    } else {
        lemma_entries_canonical(b.skip(17));
        let x = spec_u64_from_le_bytes(b.subrange(9, 17));
        assert(spec_u64_to_le_bytes(x) == b.subrange(9, 17));
        assert((x as usize) as u64 == x);
        assert(encode_state(t, v, l) =~= b);
    }
}

/// A persistent state: term, vote and log.
pub struct PersistentState {
    pub term: u64,
    pub voted_for: Option<usize>,
    pub logs: Vec<(Vec<u8>, u64)>,
}

/// Appends the bytes of `x`.
fn push_u64(out: &mut Vec<u8>, x: u64)
    ensures
        final(out)@ == old(out)@ + spec_u64_to_le_bytes(x),
{
    let mut b = u64_to_le_bytes(x);
    out.append(&mut b);
}

/// Encodes a persistent state to bytes.
pub fn encode_persistent_state(term: u64, voted_for: Option<usize>, logs: &Vec<(Vec<u8>, u64)>) -> (b: Vec<u8>)
    ensures
        b@ == encode_state(term, voted_for, log_view(logs@)),
{
    let mut out: Vec<u8> = Vec::new();
    push_u64(&mut out, term);
    match voted_for {
        None => {
            out.push(0u8);
        },
        Some(c) => {
            out.push(1u8);
            push_u64(&mut out, c as u64);
        },
    }
    let ghost prefix = out@;
    proof {
        assert(prefix =~= spec_u64_to_le_bytes(term) + encode_vote(voted_for));
        assert(log_view(logs@).take(0) =~= Seq::<(Seq<u8>, u64)>::empty());
        assert(out@ =~= prefix + encode_entries(log_view(logs@).take(0)));
    }
    let mut i: usize = 0;
    while i < logs.len()
        invariant
            i <= logs.len(),
            out@ == prefix + encode_entries(log_view(logs@).take(i as int)),
            prefix == spec_u64_to_le_bytes(term) + encode_vote(voted_for),
        decreases logs.len() - i,
    {
        let ghost before = out@;
        let entry = &logs[i];
        push_u64(&mut out, entry.1);
        push_u64(&mut out, entry.0.len() as u64);
        let mut command = slice_to_vec(entry.0.as_slice());
        out.append(&mut command);
        proof {
            let lv = log_view(logs@);
            let e = lv[i as int];
            assert(e == (entry.0@, entry.1));
            assert(lv.take(i + 1) =~= lv.take(i as int).push(e));
            lemma_encode_entries_push(lv.take(i as int), e);
            assert(out@ =~= before + encode_entry(e));
        }
        i = i + 1;
    }
    proof {
        assert(log_view(logs@).take(logs.len() as int) =~= log_view(logs@));
    }
    out
}

/// Decodes a persistent state from bytes: `None` exactly where the bytes are
/// not the encoding of one.
pub fn decode_persistent_state(data: &[u8]) -> (r: Option<PersistentState>)
    ensures
        match r {
            Some(p) => decode_state(data@) == Some((p.term, p.voted_for, log_view(p.logs@))),
            None => decode_state(data@) is None,
        },
{
    if data.len() < 9 {
        return None;
    }
    let term = u64_from_le_bytes(slice_subrange(data, 0, 8));
    let voted_for: Option<usize>;
    let mut pos: usize;
    if data[8] == 0 {
        voted_for = None;
        pos = 9;
    } else if data[8] == 1 && data.len() >= 17 {
        let v = u64_from_le_bytes(slice_subrange(data, 9, 17));
        if v > usize::MAX as u64 {
            return None;
        }
        voted_for = Some(v as usize);
        pos = 17;
    } else {
        return None;
    }
    let ghost start = pos;
    let mut logs: Vec<(Vec<u8>, u64)> = Vec::new();
    proof {
        assert(data@.skip(start as int) == data@.skip(pos as int));
        assert(log_view(logs@) =~= Seq::<(Seq<u8>, u64)>::empty());
        assert(decode_entries(data@.skip(pos as int)) matches Some(r) ==> log_view(logs@) + r =~= r);
    }
    while pos < data.len()
        invariant
            start <= pos <= data@.len(),
            decode_state(data@) == match decode_entries(data@.skip(start as int)) {
                Some(l) => Some((term, voted_for, l)),
                None => None::<(u64, Option<usize>, Seq<(Seq<u8>, u64)>)>,
            },
            decode_entries(data@.skip(start as int)) == match decode_entries(data@.skip(pos as int)) {
                Some(r) => Some(log_view(logs@) + r),
                None => None::<Seq<(Seq<u8>, u64)>>,
            },
        decreases data.len() - pos,
    {
        let ghost rest = data@.skip(pos as int);
        if data.len() - pos < 16 {
            proof {
                assert(rest.len() > 0 && rest.len() < 16);
            }
            return None;
        }
        let t = u64_from_le_bytes(slice_subrange(data, pos, pos + 8));
        let n = u64_from_le_bytes(slice_subrange(data, pos + 8, pos + 16));
        proof {
            assert(data@.subrange(pos as int, pos + 8) =~= rest.subrange(0, 8));
            assert(data@.subrange(pos + 8, pos + 16) =~= rest.subrange(8, 16));
        }
        if n > (data.len() - pos - 16) as u64 {
            return None;
        }
        let end = pos + 16 + n as usize;
        let command = slice_to_vec(slice_subrange(data, pos + 16, end));
        let ghost old_logs = log_view(logs@);
        logs.push((command, t));
        proof {
            assert(data@.subrange(pos + 16, end as int) =~= rest.subrange(16, 16 + n));
            assert(rest.skip(16 + n) =~= data@.skip(end as int));
            assert(log_view(logs@) =~= old_logs.push((command@, t)));
            let later = decode_entries(data@.skip(end as int));
            if later is Some {
                assert(old_logs + (seq![(command@, t)] + later.unwrap()) =~= log_view(logs@) + later.unwrap());
            }
        }
        pos = end;
    }
    proof {
        assert(data@.skip(pos as int).len() == 0);
        assert(log_view(logs@) + Seq::<(Seq<u8>, u64)>::empty() =~= log_view(logs@));
    }
    Some(PersistentState { term, voted_for, logs })
}

} // verus!
