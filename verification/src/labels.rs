//! The label resolver: decodes a domain name at an offset, following
//! length-prefixed labels and backwards compression pointers.

use vstd::prelude::*;
use vstd::utf8::{decode_utf8, valid_utf8};

use crate::error::DnsError;
use crate::text::bytes_to_str;

verus! {

/// The absolute offset a 2-byte compression pointer refers to: the low six
/// bits of the first byte followed by the whole second byte.
pub open spec fn pointer_target(b0: u8, b1: u8) -> int {
    (b0 & 0x3f) * 256 + b1
}

/// One step of the label walk, starting at offset `i` of the buffer.
///
/// `chasing` records whether a compression pointer has already been
/// followed, and `next` the offset of the first byte after the name as
/// originally encoded (fixed by the first pointer, or by the terminating
/// zero byte when no pointer occurs).  `fuel` bounds the number of steps:
/// one buffer length's worth is enough for every walk that visits no offset
/// twice, so running out means the references cycle.
pub open spec fn labels_from(
    raw: Seq<u8>,
    i: int,
    chasing: bool,
    next: int,
    fuel: nat,
) -> Result<(Seq<int>, int), DnsError>
    decreases fuel,
{
    if !(0 <= i < raw.len()) {
        Err(DnsError::LabelLength)
    } else if fuel == 0 {
        Err(DnsError::LabelReference)
    } else {
        let length = raw[i];
        if length == 0 {
            Ok((Seq::empty(), if chasing { next } else { i + 1 }))
        } else if length & 0xc0 != 0 {
            let nxt = if chasing { next } else { i + 2 };
            if i + 1 >= raw.len() {
                Err(DnsError::LabelLength)
            } else if pointer_target(length, raw[i + 1]) >= i {
                Err(DnsError::LabelReference)
            } else {
                labels_from(raw, pointer_target(length, raw[i + 1]), true, nxt, (fuel - 1) as nat)
            }
        } else {
            match labels_from(raw, i + length + 1, chasing, next, (fuel - 1) as nat) {
                Ok(p) => Ok((seq![i] + p.0, p.1)),
                Err(e) => Err(e),
            }
        }
    }
}

/// The label offsets of the name encoded at `offset`, together with the
/// offset of the first byte after the name as encoded there.
pub open spec fn labels_at(raw: Seq<u8>, offset: int) -> Result<(Seq<int>, int), DnsError> {
    labels_from(raw, offset, false, 0, raw.len())
}

/// The view of a vector of offsets as a sequence of mathematical integers.
pub open spec fn idx_view(s: Seq<usize>) -> Seq<int> {
    s.map_values(|u: usize| u as int)
}

/// What a successful label walk guarantees: every returned offset holds a
/// plain label whose text lies inside the buffer, and the next-field offset
/// lies past the start of the walk and inside the buffer.
pub proof fn lemma_labels_from_ok(raw: Seq<u8>, i: int, chasing: bool, next: int, fuel: nat)
    requires
        labels_from(raw, i, chasing, next, fuel) is Ok,
    ensures
        ({
            let (idxs, nx) = labels_from(raw, i, chasing, next, fuel)->Ok_0;
            &&& forall|k: int|
                0 <= k < idxs.len() ==> 0 <= #[trigger] idxs[k] && idxs[k] + 1 + raw[idxs[k]]
                    < raw.len() && 1 <= raw[idxs[k]] < 64
            &&& (chasing ==> nx == next)
            &&& (!chasing ==> i < nx <= raw.len())
        }),
    decreases fuel,
{
    let r = labels_from(raw, i, chasing, next, fuel);
    let (idxs, nx) = r->Ok_0;
    let length = raw[i];
    if length == 0 {
    } else if length & 0xc0 != 0 {
        lemma_labels_from_ok(
            raw,
            pointer_target(length, raw[i + 1]),
            true,
            if chasing {
                next
            } else {
                i + 2
            },
            (fuel - 1) as nat,
        );
    } else {
        assert(length & 0xc0 == 0 ==> length < 64) by (bit_vector);
        lemma_labels_from_ok(raw, i + length + 1, chasing, next, (fuel - 1) as nat);
        let rec = labels_from(raw, i + length + 1, chasing, next, (fuel - 1) as nat);
        let (idxs2, _) = rec->Ok_0;
        // the recursive walk begins inside the buffer, so this label's text
        // ends before the end of the buffer
        assert(0 <= i + length + 1 < raw.len());
        assert(idxs =~= seq![i] + idxs2);
        assert(forall|k: int| 1 <= k < idxs.len() ==> idxs[k] == idxs2[k - 1]);
    }
}

/// A compression pointer whose target is not strictly below its own offset
/// always fails the walk with `LabelReference`, whatever state the walk has
/// reached: resolution never runs forward, in place, or forever.
pub proof fn lemma_forward_pointer_rejected(
    raw: Seq<u8>,
    i: int,
    chasing: bool,
    next: int,
    fuel: nat,
)
    requires
        0 <= i < raw.len(),
        i + 1 < raw.len(),
        raw[i] & 0xc0 != 0,
        pointer_target(raw[i], raw[i + 1]) >= i,
    ensures
        labels_from(raw, i, chasing, next, fuel) == Err::<(Seq<int>, int), DnsError>(
            DnsError::LabelReference,
        ),
{
    let b = raw[i];
    assert(b & 0xc0 != 0 ==> b != 0) by (bit_vector);
}

/// One leg of a pure pointer chain: from any link onwards, with a pointer
/// already followed, the walk hops down the chain, reaches the root label
/// at its end, and stops with no labels collected.  Every hop points
/// strictly backwards, so one fuel unit per possible offset is enough.
proof fn lemma_pointer_chain_steps(raw: Seq<u8>, chain: Seq<int>, j: int, next: int, fuel: nat)
    requires
        chain.len() >= 1,
        forall|m: int|
            0 <= m < chain.len() - 1 ==> {
                &&& 0 <= #[trigger] chain[m]
                &&& chain[m] + 1 < raw.len()
                &&& raw[chain[m]] & 0xc0 != 0
                &&& pointer_target(raw[chain[m]], raw[chain[m] + 1]) == chain[m + 1]
                &&& chain[m + 1] < chain[m]
            },
        0 <= chain.last() < raw.len(),
        raw[chain.last()] == 0,
        0 <= j < chain.len(),
        fuel >= chain[j] + 1,
        chain[j] < raw.len(),
    ensures
        labels_from(raw, chain[j], true, next, fuel) == Ok::<_, DnsError>(
            (Seq::<int>::empty(), next),
        ),
    decreases chain.len() - j,
{
    if j == chain.len() - 1 {
        assert(raw[chain[j]] == 0);
    } else {
        let b = raw[chain[j]];
        assert(b & 0xc0 != 0 ==> b != 0) by (bit_vector);
        assert(chain[j + 1] < chain[j]);
        lemma_pointer_chain_steps(raw, chain, j + 1, next, (fuel - 1) as nat);
    }
}

/// A name encoded purely as a chain of compression pointers ending in a
/// root label resolves, and terminates: the walk follows the hops that
/// manual pointer-following takes, collects no labels (the root is the
/// empty name), and places the next field two bytes after the name's
/// start.
pub proof fn lemma_pointer_chain_resolves(raw: Seq<u8>, chain: Seq<int>)
    requires
        chain.len() >= 2,
        forall|m: int|
            0 <= m < chain.len() - 1 ==> {
                &&& 0 <= #[trigger] chain[m]
                &&& chain[m] + 1 < raw.len()
                &&& raw[chain[m]] & 0xc0 != 0
                &&& pointer_target(raw[chain[m]], raw[chain[m] + 1]) == chain[m + 1]
                &&& chain[m + 1] < chain[m]
            },
        0 <= chain.last() < raw.len(),
        raw[chain.last()] == 0,
    ensures
        labels_at(raw, chain[0]) == Ok::<_, DnsError>((Seq::<int>::empty(), chain[0] + 2)),
        name_at(raw, chain[0]) == Ok::<_, DnsError>(Seq::<char>::empty()),
{
    let b = raw[chain[0]];
    assert(b & 0xc0 != 0 ==> b != 0) by (bit_vector);
    assert(chain[1] < chain[0]);
    lemma_pointer_chain_steps(raw, chain, 1, chain[0] + 2, (raw.len() - 1) as nat);
}

/// The guarantees of a successful walk, restated for a vector of offsets as
/// `parse_labels` returns it.
pub proof fn lemma_parse_labels_bounds(raw: Seq<u8>, offset: int, idxs: Seq<usize>, next: int)
    requires
        labels_at(raw, offset) == Ok::<_, DnsError>((idx_view(idxs), next)),
    ensures
        forall|k: int|
            0 <= k < idxs.len() ==> (#[trigger] idxs[k]) + 1 + raw[idxs[k] as int] <= raw.len()
                && 1 <= raw[idxs[k] as int] < 64,
        offset < next <= raw.len(),
{
    lemma_labels_from_ok(raw, offset, false, 0, raw.len());
    let sidxs = labels_at(raw, offset)->Ok_0.0;
    assert forall|k: int|
        0 <= k < idxs.len() implies (#[trigger] idxs[k]) + 1 + raw[idxs[k] as int] <= raw.len()
        && 1 <= raw[idxs[k] as int] < 64 by {
        assert(sidxs[k] == idxs[k] as int);
        assert(sidxs[k] + 1 + raw[sidxs[k]] < raw.len());
        assert(1 <= raw[sidxs[k]] < 64);
    }
}

/// Parses the labels of the name at `offset`: returns the offsets of its
/// labels inside the buffer and the offset of the first message field after
/// the name as encoded at `offset`.
pub fn parse_labels(raw: &[u8], offset: usize) -> (r: Result<(Vec<usize>, usize), DnsError>)
    ensures
        match r {
            Ok(p) => labels_at(raw@, offset as int) == Ok::<_, DnsError>(
                (idx_view(p.0@), p.1 as int),
            ),
            Err(e) => labels_at(raw@, offset as int) == Err::<(Seq<int>, int), _>(e),
        },
{
    let ghost goal = labels_at(raw@, offset as int);
    let mut i = offset;
    let mut chasing = false;
    let mut label_indexes: Vec<usize> = Vec::new();
    let mut next_index: usize = 0;
    let mut fuel = raw.len();
    proof {
        assert(idx_view(label_indexes@) =~= Seq::<int>::empty());
    }
    loop
        invariant
            goal == labels_at(raw@, offset as int),
            fuel <= raw@.len(),
            match labels_from(raw@, i as int, chasing, next_index as int, fuel as nat) {
                Ok(p) => goal == Ok::<_, DnsError>(
                    (idx_view(label_indexes@) + p.0, p.1),
                ),
                Err(e) => goal == Err::<(Seq<int>, int), _>(e),
            },
        decreases fuel,
    {
        if i >= raw.len() {
            return Err(DnsError::LabelLength);
        }
        if fuel == 0 {
            return Err(DnsError::LabelReference);
        }
        fuel = fuel - 1;

        // get length of current label from first byte
        let length = raw[i];

        // have we reached the end of the labels?
        if length == 0 {
            // if this end was reached while following a reference, the
            // next-field offset was already fixed at the first pointer
            if !chasing {
                next_index = i + 1;
            }
            proof {
                assert(idx_view(label_indexes@) + Seq::<int>::empty() =~= idx_view(
                    label_indexes@,
                ));
            }
            return Ok((label_indexes, next_index));
        }

        // is the current byte a reference to an earlier label?
        if length & 0xc0 != 0 {
            // the pointer's second byte must still be inside the buffer
            if i + 1 >= raw.len() {
                return Err(DnsError::LabelLength);
            }
            if !chasing {
                // the first reference marks the end of this name's bytes;
                // the fields after the name start right behind it
                next_index = i + 2;
            }
            chasing = true;
            let target = ((length & 0x3f) as usize) * 256 + (raw[i + 1] as usize);

            // a reference must point strictly backwards
            if target >= i {
                return Err(DnsError::LabelReference);
            }
            i = target;
            continue;
        }

        // a plain label: its text and the byte after it must fit the buffer
        if (length as usize) >= raw.len() - 1 - i {
            return Err(DnsError::LabelLength);
        }

        // save the label's offset and skip to the next one
        let ghost old_view = idx_view(label_indexes@);
        label_indexes.push(i);
        proof {
            assert(idx_view(label_indexes@) =~= old_view + seq![i as int]);
            let rec = labels_from(
                raw@,
                i + length + 1,
                chasing,
                next_index as int,
                fuel as nat,
            );
            if rec is Ok {
                assert(old_view + (seq![i as int] + rec->Ok_0.0) =~= idx_view(label_indexes@)
                    + rec->Ok_0.0);
            }
        }
        i = i + (length as usize) + 1;
    }
}

/// The bytes of the label that starts at `idx`: its length byte, then that
/// many bytes of text.
pub open spec fn label_bytes(raw: Seq<u8>, idx: int) -> Seq<u8> {
    raw.subrange(idx + 1, idx + 1 + raw[idx])
}

/// The text of the name made of the labels at the given offsets: each
/// label's UTF-8 text followed by a dot, in order.  An all-root name gives
/// the empty text; a label with invalid UTF-8 fails.
pub open spec fn name_from_indexes(raw: Seq<u8>, idxs: Seq<int>) -> Result<Seq<char>, DnsError>
    decreases idxs.len(),
{
    if idxs.len() == 0 {
        Ok(Seq::empty())
    } else if !valid_utf8(label_bytes(raw, idxs[0])) {
        Err(DnsError::LabelUtf8)
    } else {
        match name_from_indexes(raw, idxs.drop_first()) {
            Ok(rest) => Ok(decode_utf8(label_bytes(raw, idxs[0])) + seq!['.'] + rest),
            Err(e) => Err(e),
        }
    }
}

/// The text of the name encoded at `offset`.
pub open spec fn name_at(raw: Seq<u8>, offset: int) -> Result<Seq<char>, DnsError> {
    match labels_at(raw, offset) {
        Ok(p) => name_from_indexes(raw, p.0),
        Err(e) => Err(e),
    }
}

/// Builds the name text out of already-resolved label offsets.  Offsets
/// whose label text would not fit the buffer are a caller bug.
pub fn get_name_from_labels(raw: &[u8], label_indexes: &Vec<usize>) -> (r: Result<
    String,
    DnsError,
>)
    requires
        forall|k: int|
            0 <= k < label_indexes@.len() ==> (#[trigger] label_indexes@[k]) + 1
                + raw@[label_indexes@[k] as int] <= raw@.len(),
    ensures
        match r {
            Ok(s) => name_from_indexes(raw@, idx_view(label_indexes@)) == Ok::<_, DnsError>(s@),
            Err(e) => name_from_indexes(raw@, idx_view(label_indexes@)) == Err::<Seq<char>, _>(e),
        },
{
    let ghost idxs = idx_view(label_indexes@);
    let mut name = String::new();
    let mut k: usize = 0;
    proof {
        assert(idxs.skip(0) =~= idxs);
        if name_from_indexes(raw@, idxs) is Ok {
            let v = name_from_indexes(raw@, idxs)->Ok_0;
            assert(name@ + v =~= v);
        }
    }
    while k < label_indexes.len()
        invariant
            idxs == idx_view(label_indexes@),
            0 <= k <= label_indexes@.len(),
            forall|j: int|
                0 <= j < label_indexes@.len() ==> (#[trigger] label_indexes@[j]) + 1
                    + raw@[label_indexes@[j] as int] <= raw@.len(),
            match name_from_indexes(raw@, idxs.skip(k as int)) {
                Ok(rest) => name_from_indexes(raw@, idxs) == Ok::<_, DnsError>(name@ + rest),
                Err(e) => name_from_indexes(raw@, idxs) == Err::<Seq<char>, _>(e),
            },
        decreases label_indexes@.len() - k,
    {
        // read the label's length from its first byte
        let i = label_indexes[k];
        assert(label_indexes@[k as int] + 1 + raw@[label_indexes@[k as int] as int] <= raw@.len());
        let length = raw[i] as usize;

        // read this part of the domain name
        let j = i + 1;
        let part_bytes = &raw[j..j + length];
        proof {
            assert(part_bytes@ =~= label_bytes(raw@, i as int));
            assert(idxs.skip(k as int)[0] == idxs[k as int]);
        }
        match bytes_to_str(part_bytes) {
            Some(part) => {
                let ghost before = name@;
                name.append(part);
                name.append(".");
                proof {
                    reveal_strlit(".");
                    assert("."@ =~= seq!['.']);
                    assert(idxs.skip(k as int).drop_first() =~= idxs.skip(k as int + 1));
                    let rec = name_from_indexes(raw@, idxs.skip(k as int + 1));
                    if rec is Ok {
                        assert(before + (decode_utf8(label_bytes(raw@, idxs[k as int])) + seq!['.']
                            + rec->Ok_0) =~= name@ + rec->Ok_0);
                    }
                }
            }
            None => {
                proof {
                    assert(idxs.skip(k as int)[0] == idxs[k as int]);
                }
                return Err(DnsError::LabelUtf8);
            }
        }
        k = k + 1;
    }
    proof {
        assert(idxs.skip(label_indexes@.len() as int) =~= Seq::<int>::empty());
        assert(name@ + Seq::<char>::empty() =~= name@);
    }
    Ok(name)
}

/// Decodes the name at `offset` directly into its text.
pub fn get_name(raw: &[u8], offset: usize) -> (r: Result<String, DnsError>)
    ensures
        match r {
            Ok(s) => name_at(raw@, offset as int) == Ok::<_, DnsError>(s@),
            Err(e) => name_at(raw@, offset as int) == Err::<Seq<char>, _>(e),
        },
{
    let p = match parse_labels(raw, offset) {
        Ok(p) => p,
        Err(e) => {
            return Err(e);
        },
    };
    let label_indexes = p.0;
    proof {
        lemma_parse_labels_bounds(raw@, offset as int, label_indexes@, p.1 as int);
    }
    get_name_from_labels(raw, &label_indexes)
}

} // verus!
