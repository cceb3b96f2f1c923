//! Domain names: length-prefixed labels, with compression pointers on decode.
use vstd::prelude::*;
use vstd::utf8::*;
use vstd::string::*;
use vstd::arithmetic::div_mod::{lemma_mod_self_0, lemma_small_mod};
use crate::error::CodecError;
use crate::wire::push_all;

verus! {

broadcast use group_utf8_lib;

/// The octets of a label on the wire: its UTF-8 encoding.
pub open spec fn label_bytes(l: Seq<char>) -> Seq<u8> {
    encode_utf8(l)
}

/// A label can be written: one to 63 octets.
pub open spec fn label_ok(l: Seq<char>) -> bool {
    1 <= label_bytes(l).len() <= 63
}

/// The labels of a name, each behind its length octet, without the final zero.
pub open spec fn labels_body(ls: Seq<Seq<char>>) -> Seq<u8>
    decreases ls.len(),
{
    if ls.len() == 0 {
        seq![]
    } else {
        seq![label_bytes(ls[0]).len() as u8] + label_bytes(ls[0]) + labels_body(ls.drop_first())
    }
}

/// A name on the wire, uncompressed: its labels and a zero length octet.
pub open spec fn name_bytes(ls: Seq<Seq<char>>) -> Seq<u8> {
    labels_body(ls) + seq![0u8]
}

/// A name can be written: every label fits and the whole takes at most 255 octets.
pub open spec fn name_ok(ls: Seq<Seq<char>>) -> bool {
    &&& forall|i: int| 0 <= i < ls.len() ==> label_ok(#[trigger] ls[i])
    &&& name_bytes(ls).len() <= 255
}

/// What encoding the name `ls` gives: its octets, or why it cannot be written.
pub open spec fn encode_name(ls: Seq<Seq<char>>) -> Result<Seq<u8>, CodecError> {
    if exists|i: int| 0 <= i < ls.len() && !label_ok(#[trigger] ls[i]) {
        Err(CodecError::LabelNotEncodable)
    } else if name_bytes(ls).len() > 255 {
        Err(CodecError::NameNotEncodable)
    } else {
        Ok(name_bytes(ls))
    }
}

/// Decoding of the name whose next length octet is at `pos`.
///
/// `floor` is the lowest offset visited so far while reading this name, and
/// every offset visited lies at or above it. A pointer must jump strictly
/// below `floor`, and the part read after the jump must stay below `limit`,
/// the `floor` from before the jump: so no offset is ever read twice, and a
/// read that would reach the part already visited fails with
/// `CompressionLoop`. Before any jump `limit` is the length of the input.
/// `total` counts the wire octets of the labels read so far, and `end` is where
/// the name ends in the input once a pointer has been followed. The result is
/// the labels and the offset just past the name as it stands at its start.
pub open spec fn read_name(
    b: Seq<u8>,
    pos: nat,
    floor: nat,
    limit: nat,
    total: nat,
    end: Option<nat>,
) -> Result<(Seq<Seq<char>>, nat), CodecError>
    decreases floor, b.len() - pos,
{
    if pos >= b.len() {
        Err(CodecError::IncompleteMessage { offset: pos as usize })
    } else if pos >= limit {
        Err(CodecError::CompressionLoop { offset: pos as usize })
    } else {
        let len = b[pos as int];
        if len == 0 {
            Ok(
                (
                    seq![],
                    match end {
                        Some(e) => e,
                        None => pos + 1,
                    },
                ),
            )
        } else if len < 64 {
            let next = pos + 1 + len;
            if next > b.len() {
                Err(CodecError::InvalidLabel { offset: pos as usize })
            } else if next > limit {
                Err(CodecError::CompressionLoop { offset: pos as usize })
            } else if total + len + 2 > 255 {
                Err(CodecError::NameTooLong { offset: pos as usize })
            } else if !valid_utf8(b.subrange(pos + 1int, next as int)) {
                Err(CodecError::InvalidLabel { offset: pos as usize })
            } else {
                let label = decode_utf8(b.subrange(pos + 1int, next as int));
                match read_name(b, next as nat, floor, limit, (total + 1 + len) as nat, end) {
                    Ok((rest, e)) => Ok((seq![label] + rest, e)),
                    Err(err) => Err(err),
                }
            }
        } else if len >= 192 {
            if pos + 2 > b.len() {
                Err(CodecError::IncompleteMessage { offset: pos as usize })
            } else if pos + 2 > limit {
                Err(CodecError::CompressionLoop { offset: pos as usize })
            } else {
                let target = ((len - 192) * 256 + b[pos + 1int]) as nat;
                if target >= b.len() {
                    Err(CodecError::InvalidPointer { offset: pos as usize })
                } else if target >= floor {
                    Err(CodecError::CompressionLoop { offset: pos as usize })
                } else {
                    read_name(
                        b,
                        target,
                        target,
                        floor,
                        total,
                        Some(
                            match end {
                                Some(e) => e,
                                None => pos + 2,
                            },
                        ),
                    )
                }
            }
        } else {
            Err(CodecError::InvalidLabelLength { offset: pos as usize })
        }
    }
}

/// The name that starts at `pos`: its labels and the offset just past it.
pub open spec fn parse_name(b: Seq<u8>, pos: nat) -> Result<(Seq<Seq<char>>, nat), CodecError> {
    read_name(b, pos, pos, b.len(), 0, None)
}

/// Puts `ls` in front of the labels of a successful result.
pub open spec fn prepend(ls: Seq<Seq<char>>, r: Result<(Seq<Seq<char>>, nat), CodecError>) -> Result<
    (Seq<Seq<char>>, nat),
    CodecError,
> {
    match r {
        Ok((rest, e)) => Ok((ls + rest, e)),
        Err(err) => Err(err),
    }
}

/// The labels and end offset of a decoded name, as values.
pub open spec fn name_result_view(r: Result<(Vec<String>, usize), CodecError>) -> Result<
    (Seq<Seq<char>>, nat),
    CodecError,
> {
    match r {
        Ok((ls, e)) => Ok((ls.deep_view(), e as nat)),
        Err(err) => Err(err),
    }
}

pub open spec fn opt_nat(o: Option<usize>) -> Option<nat> {
    match o {
        Some(e) => Some(e as nat),
        None => None,
    }
}

/// Relies on `std::str::from_utf8`: it accepts exactly the valid UTF-8
/// sequences, and the text it returns is made of the same octets.
#[verifier::external_body]
pub(crate) fn utf8_text(bytes: &[u8]) -> (r: Option<&str>)
    ensures
        r is Some <==> valid_utf8(bytes@),
        r matches Some(s) ==> s.spec_bytes() == bytes@,
{
    std::str::from_utf8(bytes).ok()
}

proof fn lemma_labels_body_push(ls: Seq<Seq<char>>, l: Seq<char>)
    ensures
        labels_body(ls.push(l)) == labels_body(ls) + seq![label_bytes(l).len() as u8] + label_bytes(l),
    decreases ls.len(),
{
    if ls.len() == 0 {
        assert(ls.push(l).drop_first() =~= ls);
        assert(labels_body(ls.push(l)) =~= labels_body(ls) + seq![label_bytes(l).len() as u8]
            + label_bytes(l));
    } else {
        assert(ls.push(l).drop_first() =~= ls.drop_first().push(l));
        lemma_labels_body_push(ls.drop_first(), l);
        assert(ls.push(l)[0] == ls[0]);
        assert(labels_body(ls.push(l)) =~= labels_body(ls) + seq![label_bytes(l).len() as u8]
            + label_bytes(l));
    }
}

/// Writes the name `labels` to `out`, without compression.
pub fn write_name(labels: &Vec<String>, out: &mut Vec<u8>) -> (r: Result<(), CodecError>)
    ensures
        match encode_name(labels.deep_view()) {
            Ok(bytes) => r is Ok && final(out)@ == old(out)@ + bytes,
            Err(e) => r == Err::<(), CodecError>(e),
        },
{
    let ghost start = out@;
    let ghost ls = labels.deep_view();
    let mut total: usize = 0;
    let mut i: usize = 0;
    while i < labels.len()
        invariant
            i <= labels@.len(),
            ls == labels.deep_view(),
            forall|j: int| 0 <= j < i ==> label_ok(#[trigger] ls[j]),
            out@ == start + labels_body(ls.subrange(0, i as int)),
            labels_body(ls.subrange(0, i as int)).len() <= 255 ==> total == labels_body(
                ls.subrange(0, i as int),
            ).len(),
            labels_body(ls.subrange(0, i as int)).len() > 255 ==> total > 255,
            total <= 255 + 64,
        decreases labels@.len() - i,
    {
        let bytes: &[u8] = labels[i].as_str().as_bytes();
        let n = bytes.len();
        if n == 0 || n > 63 {
            proof {
                assert(ls[i as int] == labels@[i as int]@);
                assert(!label_ok(ls[i as int]));
            }
            return Err(CodecError::LabelNotEncodable);
        }
        out.push(n as u8);
        push_all(out, bytes);
        proof {
            assert(ls.subrange(0, i + 1) =~= ls.subrange(0, i as int).push(ls[i as int]));
            lemma_labels_body_push(ls.subrange(0, i as int), ls[i as int]);
            assert(out@ =~= start + labels_body(ls.subrange(0, i + 1)));
        }
        if total <= 255 {
            total = total + 1 + n;
        }
        i = i + 1;
    }
    proof {
        assert(ls.subrange(0, i as int) =~= ls);
    }
    if total > 254 {
        return Err(CodecError::NameNotEncodable);
    }
    out.push(0);
    assert(out@ =~= start + name_bytes(ls));
    Ok(())
}

/// Reading a name written without compression gives back its labels, and
/// ends just past it unless a pointer was followed on the way there.
pub proof fn lemma_read_literal_name(
    b: Seq<u8>,
    pos: nat,
    floor: nat,
    limit: nat,
    total: nat,
    end: Option<nat>,
    ls: Seq<Seq<char>>,
)
    requires
        forall|i: int| 0 <= i < ls.len() ==> label_ok(#[trigger] ls[i]),
        total + name_bytes(ls).len() <= 255,
        pos + name_bytes(ls).len() <= b.len(),
        pos + name_bytes(ls).len() <= limit,
        b.subrange(pos as int, (pos + name_bytes(ls).len()) as int) == name_bytes(ls),
    ensures
        read_name(b, pos, floor, limit, total, end) == Ok::<(Seq<Seq<char>>, nat), CodecError>(
            (
                ls,
                match end {
                    Some(e) => e,
                    None => pos + name_bytes(ls).len(),
                },
            ),
        ),
    decreases ls.len(),
{
    let nb = name_bytes(ls);
    assert(b[pos as int] == nb[0]);
    if ls.len() > 0 {
        let l = ls[0];
        let lb = label_bytes(l);
        let n: int = lb.len() as int;
        let rest = ls.drop_first();
        let sub = b.subrange(pos as int, (pos + nb.len()) as int);
        assert(nb =~= seq![n as u8] + lb + name_bytes(rest));
        assert(b.subrange(pos + 1int, pos + 1int + n) =~= sub.subrange(1, 1 + n));
        assert(nb.subrange(1, 1 + n) =~= lb);
        assert(b.subrange(pos + 1int + n, pos + 1int + n + name_bytes(rest).len()) =~= sub.subrange(
            1 + n,
            nb.len() as int,
        ));
        assert(nb.subrange(1 + n, nb.len() as int) =~= name_bytes(rest));
        assert forall|i: int| 0 <= i < rest.len() implies label_ok(#[trigger] rest[i]) by {
            assert(rest[i] == ls[i + 1]);
        }
        lemma_read_literal_name(b, (pos + 1 + n) as nat, floor, limit, (total + 1 + n) as nat, end, rest);
        assert(seq![l] + rest =~= ls);
        assert(b[pos as int] == n as u8);
    } else {
        assert(nb =~= seq![0u8]);
        assert(ls =~= seq![]);
    }
}

/// A compression pointer to an earlier, uncompressed copy of a name, which
/// ends before the pointer, decodes to the same labels as the copy, and the
/// name ends just past the pointer.
pub proof fn lemma_pointer_to_literal_name(b: Seq<u8>, pos: nat, target: nat, ls: Seq<Seq<char>>)
    requires
        name_ok(ls),
        target < 0x4000,
        target + name_bytes(ls).len() <= pos,
        b.subrange(target as int, (target + name_bytes(ls).len()) as int) == name_bytes(ls),
        pos + 2 <= b.len(),
        b[pos as int] == 192 + target / 256,
        b[pos + 1int] == target % 256,
    ensures
        parse_name(b, target) == Ok::<(Seq<Seq<char>>, nat), CodecError>(
            (ls, target + name_bytes(ls).len()),
        ),
        parse_name(b, pos) == Ok::<(Seq<Seq<char>>, nat), CodecError>((ls, pos + 2)),
{
    lemma_read_literal_name(b, target, target, b.len(), 0, None, ls);
    lemma_read_literal_name(b, target, target, pos, 0, Some((pos + 2) as nat), ls);
}

/// A decoded name never ends past the end of the input.
pub proof fn lemma_read_name_end(
    b: Seq<u8>,
    pos: nat,
    floor: nat,
    limit: nat,
    total: nat,
    end: Option<nat>,
)
    requires
        end matches Some(e) ==> e <= b.len(),
    ensures
        read_name(b, pos, floor, limit, total, end) matches Ok((_, e)) ==> e <= b.len(),
    decreases floor, b.len() - pos,
{
    if pos < b.len() {
        let len = b[pos as int];
        if 0 < len < 64 {
            let next = pos + 1 + len;
            if next <= b.len() {
                lemma_read_name_end(b, next as nat, floor, limit, (total + 1 + len) as nat, end);
            }
        } else if len >= 192 && pos + 2 <= b.len() {
            let target = ((len - 192) * 256 + b[pos + 1int]) as nat;
            if target < floor {
                let e2 = match end {
                    Some(e) => e,
                    None => (pos + 2) as nat,
                };
                lemma_read_name_end(b, target, target, floor, total, Some(e2));
            }
        }
    }
}

/// The pieces of `s` between dots, from `start` on, where the search for the
/// next dot has reached `i`.
pub open spec fn split_from(s: Seq<char>, start: int, i: int) -> Seq<Seq<char>>
    decreases s.len() - i,
{
    if i >= s.len() {
        seq![s.subrange(start, s.len() as int)]
    } else if s[i] == '.' {
        seq![s.subrange(start, i)] + split_from(s, i + 1, i + 1)
    } else {
        split_from(s, start, i + 1)
    }
}

/// The labels of a dotted domain: the pieces between dots, empty ones included.
pub open spec fn split_labels(s: Seq<char>) -> Seq<Seq<char>> {
    split_from(s, 0, 0)
}

/// Splits a dotted domain into its labels.
pub fn split_domain(domain: &str) -> (r: Vec<String>)
    ensures
        r.deep_view() == split_labels(domain@),
{
    let n = domain.unicode_len();
    let mut labels: Vec<String> = Vec::new();
    let mut start: usize = 0;
    let mut i: usize = 0;
    while i < n
        invariant
            n == domain@.len(),
            start <= i <= n,
            split_labels(domain@) == labels.deep_view() + split_from(domain@, start as int, i as int),
        decreases n - i,
    {
        if domain.get_char(i) == '.' {
            let piece: String = domain.substring_char(start, i).to_owned();
            let ghost before = labels.deep_view();
            labels.push(piece);
            proof {
                assert(labels.deep_view() =~= before.push(piece@));
                assert(before + split_from(domain@, start as int, i as int) =~= labels.deep_view()
                    + split_from(domain@, i + 1, i + 1));
            }
            start = i + 1;
        }
        i = i + 1;
    }
    let piece: String = domain.substring_char(start, n).to_owned();
    let ghost before = labels.deep_view();
    labels.push(piece);
    proof {
        assert(labels.deep_view() =~= before.push(piece@));
        assert(before + split_from(domain@, start as int, i as int) =~= labels.deep_view());
    }
    labels
}

/// The error is an `InvalidLabel` for a label whose length octet is in `b`
/// and which claims more octets than `b` has left.
pub open spec fn label_cut(b: Seq<u8>, e: CodecError) -> bool {
    e matches CodecError::InvalidLabel { offset } && offset < b.len() && b.len() <= offset
        + b[offset as int]
}

/// A name written without compression and cut short before its last octet
/// fails to decode: the buffer ends where a length octet is due, or inside a
/// label.
pub proof fn lemma_read_literal_name_cut(
    b: Seq<u8>,
    pos: nat,
    floor: nat,
    limit: nat,
    total: nat,
    end: Option<nat>,
    ls: Seq<Seq<char>>,
)
    requires
        forall|i: int| 0 <= i < ls.len() ==> label_ok(#[trigger] ls[i]),
        total + name_bytes(ls).len() <= 255,
        b.len() <= usize::MAX,
        b.len() <= limit,
        pos <= b.len() < pos + name_bytes(ls).len(),
        b.subrange(pos as int, b.len() as int) == name_bytes(ls).subrange(0, b.len() - pos),
    ensures
        read_name(b, pos, floor, limit, total, end) matches Err(e) && (e is IncompleteMessage || label_cut(
            b,
            e,
        )),
    decreases ls.len(),
{
    let nb = name_bytes(ls);
    let sub = b.subrange(pos as int, b.len() as int);
    if pos < b.len() {
        assert(sub[0] == b[pos as int]);
        assert(nb.subrange(0, b.len() - pos)[0] == nb[0]);
        if ls.len() == 0 {
            assert(nb =~= seq![0u8]);
        } else {
            let l = ls[0];
            let lb = label_bytes(l);
            let n: int = lb.len() as int;
            let rest = ls.drop_first();
            assert(nb =~= seq![n as u8] + lb + name_bytes(rest));
            assert(b[pos as int] == n as u8);
            assert(0 < n < 64);
            assert(total + n + 2 <= 255);
            if pos + 1 + n <= b.len() {
                let k: int = b.len() - pos;
                assert(b.subrange(pos + 1int, pos + 1int + n) =~= sub.subrange(1, 1 + n));
                assert(nb.subrange(0, k).subrange(1, 1 + n) =~= nb.subrange(1, 1 + n));
                assert(nb.subrange(1, 1 + n) =~= lb);
                assert(b.subrange(pos + 1int + n, b.len() as int) =~= sub.subrange(1 + n, k));
                assert(nb.subrange(0, k).subrange(1 + n, k) =~= nb.subrange(1 + n, k));
                assert(nb.subrange(1 + n, k) =~= name_bytes(rest).subrange(0, k - 1 - n));
                assert forall|i: int| 0 <= i < rest.len() implies label_ok(#[trigger] rest[i]) by {
                    assert(rest[i] == ls[i + 1]);
                }
                lemma_read_literal_name_cut(
                    b,
                    (pos + 1 + n) as nat,
                    floor,
                    limit,
                    (total + 1 + n) as nat,
                    end,
                    rest,
                );
                assert(b.subrange(pos + 1int, pos + 1int + n) == lb);
                assert(valid_utf8(lb));
            } else {
                assert(label_cut(b, CodecError::InvalidLabel { offset: pos as usize }));
            }
        }
    }
}

/// A pointer at `p`, complete in `b`, whose target is `t`.
pub open spec fn points_to(b: Seq<u8>, p: int, t: int) -> bool {
    &&& 0 <= p
    &&& p + 2 <= b.len()
    &&& b[p] >= 192
    &&& (b[p] - 192) * 256 + b[p + 1] == t
}

proof fn lemma_cycle_from(
    b: Seq<u8>,
    cycle: Seq<nat>,
    j: nat,
    limit: nat,
    total: nat,
    end: Option<nat>,
)
    requires
        j < cycle.len(),
        forall|i: int| 0 <= i < cycle.len() ==> #[trigger] cycle[i] < b.len(),
        forall|i: int|
            0 <= i < cycle.len() ==> points_to(b, #[trigger] cycle[i] as int, cycle[(i + 1) % (cycle.len() as int)] as int),
        forall|i: int| 0 <= i < j ==> cycle[j as int] < #[trigger] cycle[i],
    ensures
        read_name(b, cycle[j as int], cycle[j as int], limit, total, end) is Err,
        read_name(b, cycle[j as int], cycle[j as int], limit, total, end)->Err_0 is CompressionLoop,
    decreases cycle.len() - j,
{
    let len = cycle.len() as int;
    let pos = cycle[j as int];
    let next: int = (j + 1int) % len;
    let t = cycle[next];
    assert(points_to(b, pos as int, t as int));
    if t < pos && pos + 2 <= limit {
        if j + 1 == len {
            lemma_mod_self_0(len);
            assert(next == 0);
            if j > 0 {
                assert(cycle[j as int] < cycle[0]);
            }
        }
        assert(j + 1 < len);
        lemma_small_mod((j + 1) as nat, len as nat);
        assert(next == j + 1);
        let e2 = match end {
            Some(e) => e,
            None => (pos + 2) as nat,
        };
        assert forall|i: int| 0 <= i < j + 1 implies cycle[(j + 1) as int] < #[trigger] cycle[i] by {
            if i < j {
                assert(cycle[j as int] < cycle[i]);
            }
        }
        lemma_cycle_from(b, cycle, (j + 1) as nat, pos, total, Some(e2));
    }
}

/// Loop safety: a name that starts at a pointer in a ring of pointers, each
/// targeting the next and the last the first (a pointer that targets itself
/// is a ring of one), fails to decode with `CompressionLoop`.
pub proof fn lemma_pointer_cycle(b: Seq<u8>, cycle: Seq<nat>)
    requires
        cycle.len() >= 1,
        forall|i: int| 0 <= i < cycle.len() ==> #[trigger] cycle[i] < b.len(),
        forall|i: int|
            0 <= i < cycle.len() ==> points_to(b, #[trigger] cycle[i] as int, cycle[(i + 1) % (cycle.len() as int)] as int),
    ensures
        parse_name(b, cycle[0]) is Err,
        parse_name(b, cycle[0])->Err_0 is CompressionLoop,
{
    lemma_cycle_from(b, cycle, 0, b.len(), 0, None);
}

} // verus!
