//! The compressed domain-name codec of RFC 1035 section 4.1.4: serializing a
//! name against the per-message dictionary, emitting a back-reference pointer
//! for the longest recorded suffix, and parsing names whose tails are
//! pointer chains into earlier parts of the message.

use vstd::prelude::*;

use crate::label::{spec_parse_label, DomainLabel};
use crate::label_map::{insert_from, match_from, LabelMap};
use crate::name::{label_views, lower_texts, DomainName};
use crate::types::ptr_wire;
use crate::wire::{
    label_wire, labels_wire, lemma_labels_wire_split, lemma_labels_wire_take_succ, name_wire,
};
use crate::{MessageOffset, ParseDataError};

verus! {

/// What a compressed serialization step produced: the bytes emitted and the
/// rolling offset after them.
pub struct SerializeCompressedOutcome {
    pub compressed_bytes: Vec<u8>,
    pub new_offset: MessageOffset,
}

/// The bytes a name serializes to against dictionary `m`: the labels its
/// longest recorded suffix does not cover, then a pointer to that suffix; or
/// the whole plain wire form when no suffix is recorded.
pub open spec fn compress_name_out(m: Map<Seq<Seq<u8>>, u16>, ls: Seq<Seq<u8>>) -> Seq<u8> {
    let ks = lower_texts(ls);
    let s = match_from(m, ks, 0);
    if s < ls.len() {
        labels_wire(ls.take(s)) + ptr_wire(m[ks.skip(s)])
    } else {
        name_wire(ls)
    }
}

/// Parse a possibly compressed domain name: labels from `pos` up to either a
/// root label or a pointer. A pointer must lead strictly before `seg`, the
/// start of the segment being read — offsets never increase along a pointer
/// chain, which bounds adversarial chains that the wire format itself does
/// not rule out. The returned position is the one just after the name in the
/// segment where parsing began: a pointer is always its final element.
pub open spec fn spec_parse_cname(b: Seq<u8>, pos: int, seg: int) -> Result<
    (Seq<Seq<u8>>, int),
    ParseDataError,
>
    decreases seg, b.len() - pos,
{
    if !(0 <= pos < b.len()) {
        Err(ParseDataError::InvalidByteStructure)
    } else if b[pos] >= 192 {
        if pos + 1 >= b.len() {
            Err(ParseDataError::InvalidByteStructure)
        } else {
            let t = (b[pos] - 192) * 256 + b[pos + 1];
            if t < seg {
                match spec_parse_cname(b, t, t) {
                    Ok((ls, _)) => Ok((ls, pos + 2)),
                    Err(_) => Err(ParseDataError::InvalidDomainPointer),
                }
            } else {
                Err(ParseDataError::InvalidDomainPointer)
            }
        }
    } else if b[pos] == 0 {
        Ok((Seq::empty(), pos + 1))
    } else {
        match spec_parse_label(b, pos) {
            None => Err(ParseDataError::InvalidByteStructure),
            Some((t, end)) => match spec_parse_cname(b, end, seg) {
                Ok((ls, e2)) => Ok((seq![t] + ls, e2)),
                Err(er) => Err(er),
            },
        }
    }
}

/// The labels decoded at `off` (reading the segment that starts there) lower
/// to exactly `k`.
pub open spec fn decodes_to(b: Seq<u8>, off: int, k: Seq<Seq<u8>>) -> bool {
    match spec_parse_cname(b, off, off) {
        Ok((ls, _)) => lower_texts(ls) == k,
        Err(_) => false,
    }
}

/// The dictionary is truthful about the message built so far: every recorded
/// suffix names an offset — below the 14-bit pointer budget and inside the
/// bytes — where exactly that (case-folded) run of labels decodes.
pub open spec fn map_tracks(m: Map<Seq<Seq<u8>>, u16>, b: Seq<u8>) -> bool {
    forall|k: Seq<Seq<u8>>|
        #[trigger] m.contains_key(k) ==> m[k] < 0x4000 && m[k] < b.len() && decodes_to(
            b,
            m[k] as int,
            k,
        )
}

/// A successful parse reads only within `b`, so appending bytes to the
/// message changes nothing about it.
pub proof fn lemma_parse_cname_extend(b: Seq<u8>, ext: Seq<u8>, pos: int, seg: int)
    requires
        spec_parse_cname(b, pos, seg) is Ok,
    ensures
        spec_parse_cname(b + ext, pos, seg) == spec_parse_cname(b, pos, seg),
    decreases seg, b.len() - pos,
{
    let w = b + ext;
    assert(0 <= pos < b.len());
    assert(w[pos] == b[pos]);
    if b[pos] >= 192 {
        assert(pos + 1 < b.len());
        assert(w[pos + 1] == b[pos + 1]);
        let t = (b[pos] - 192) * 256 + b[pos + 1];
        assert(t < seg);
        lemma_parse_cname_extend(b, ext, t, t);
    } else if b[pos] == 0 {
    } else {
        match spec_parse_label(b, pos) {
            None => {
                assert(false);
            },
            Some((t, end)) => {
                assert(spec_parse_label(w, pos) == Some((t, end))) by {
                    assert(w.subrange(pos + 1, pos + 1 + w[pos]) =~= b.subrange(
                        pos + 1,
                        pos + 1 + b[pos],
                    ));
                }
                lemma_parse_cname_extend(b, ext, end, seg);
            },
        }
    }
}

/// A literal run of labels in the buffer parses as itself, continuing with
/// whatever the bytes after the run parse to.
pub proof fn lemma_decode_label_run(b: Seq<u8>, pos: int, seg: int, mid: Seq<Seq<u8>>)
    requires
        0 <= pos,
        pos + labels_wire(mid).len() <= b.len(),
        forall|i: int| 0 <= i < mid.len() ==> 1 <= (#[trigger] mid[i]).len() <= 63,
        b.subrange(pos, pos + labels_wire(mid).len()) == labels_wire(mid),
        spec_parse_cname(b, pos + labels_wire(mid).len(), seg) is Ok,
    ensures
        match spec_parse_cname(b, pos + labels_wire(mid).len(), seg) {
            Ok((ls, e)) => spec_parse_cname(b, pos, seg) == Ok::<(Seq<Seq<u8>>, int), ParseDataError>(
                (mid + ls, e),
            ),
            Err(_) => false,
        },
    decreases mid.len(),
{
    if mid.len() == 0 {
        assert(labels_wire(mid).len() == 0);
        match spec_parse_cname(b, pos, seg) {
            Ok((ls, e)) => {
                assert(mid + ls =~= ls);
            },
            Err(_) => {},
        }
    } else {
        let n0 = mid[0].len() as int;
        let rest = mid.drop_first();
        assert(labels_wire(mid) == label_wire(mid[0]) + labels_wire(rest));
        assert(label_wire(mid[0]).len() == 1 + n0);
        assert(b[pos] == labels_wire(mid)[0]);
        assert(labels_wire(mid)[0] == n0 as u8);
        assert(1 <= b[pos] <= 63);
        assert(spec_parse_label(b, pos) == Some((mid[0], pos + 1 + n0))) by {
            assert(b.subrange(pos + 1, pos + 1 + n0) =~= mid[0]) by {
                assert forall|t: int| 0 <= t < n0 implies b[pos + 1 + t] == mid[0][t] by {
                    assert(b[pos + 1 + t] == b.subrange(pos, pos + labels_wire(mid).len())[1 + t]);
                    assert(labels_wire(mid)[1 + t] == label_wire(mid[0])[1 + t]);
                }
            }
        }
        assert(b.subrange(pos + 1 + n0, pos + 1 + n0 + labels_wire(rest).len()) =~= labels_wire(
            rest,
        )) by {
            assert forall|t: int| 0 <= t < labels_wire(rest).len() implies b[pos + 1 + n0 + t]
                == labels_wire(rest)[t] by {
                assert(b[pos + 1 + n0 + t] == b.subrange(pos, pos + labels_wire(mid).len())[1 + n0
                    + t]);
                assert(labels_wire(mid)[1 + n0 + t] == labels_wire(rest)[t]);
            }
        }
        lemma_decode_label_run(b, pos + 1 + n0, seg, rest);
        match spec_parse_cname(b, pos + labels_wire(mid).len(), seg) {
            Ok((ls, e)) => {
                assert(seq![mid[0]] + (rest + ls) =~= mid + ls);
            },
            Err(_) => {},
        }
    }
}

/// A pointer in the buffer parses to whatever decodes at its target, and ends
/// two octets after itself.
pub proof fn lemma_decode_ptr(b: Seq<u8>, pos: int, seg: int, off: u16)
    requires
        0 <= pos,
        pos + 2 <= b.len(),
        off < 0x4000,
        (off as int) < seg,
        b[pos] == ptr_wire(off)[0],
        b[pos + 1] == ptr_wire(off)[1],
        spec_parse_cname(b, off as int, off as int) is Ok,
    ensures
        match spec_parse_cname(b, off as int, off as int) {
            Ok((ls, _)) => spec_parse_cname(b, pos, seg) == Ok::<(Seq<Seq<u8>>, int), ParseDataError>(
                (ls, pos + 2),
            ),
            Err(_) => false,
        },
{
    assert(b[pos] == 192 + off / 256);
    assert(b[pos] >= 192);
    assert((b[pos] - 192) * 256 + b[pos + 1] == off) by {
        vstd::arithmetic::div_mod::lemma_fundamental_div_mod(off as int, 256);
    }
}

/// A successful parse starts inside the buffer and ends after its start, at
/// or before the buffer's end.
pub proof fn lemma_parse_cname_end(b: Seq<u8>, pos: int, seg: int)
    requires
        spec_parse_cname(b, pos, seg) is Ok,
    ensures
        ({
            let e = spec_parse_cname(b, pos, seg)->Ok_0.1;
            pos < e <= b.len()
        }),
    decreases seg, b.len() - pos,
{
    assert(0 <= pos < b.len());
    if b[pos] >= 192 {
    } else if b[pos] == 0 {
    } else {
        match spec_parse_label(b, pos) {
            None => {
                assert(false);
            },
            Some((t, end)) => {
                lemma_parse_cname_end(b, end, seg);
            },
        }
    }
}

/// A truthful dictionary stays truthful when the message grows.
pub proof fn lemma_map_tracks_extend(m: Map<Seq<Seq<u8>>, u16>, b: Seq<u8>, ext: Seq<u8>)
    requires
        map_tracks(m, b),
    ensures
        map_tracks(m, b + ext),
{
    assert forall|k: Seq<Seq<u8>>| #[trigger] m.contains_key(k) implies m[k] < 0x4000 && m[k] < (b
        + ext).len() && decodes_to(b + ext, m[k] as int, k) by {
        lemma_parse_cname_extend(b, ext, m[k] as int, m[k] as int);
    }
}

/// Compressed output never exceeds the plain wire form.
pub proof fn lemma_compress_out_len(m: Map<Seq<Seq<u8>>, u16>, ls: Seq<Seq<u8>>)
    requires
        ls.len() > 0,
    ensures
        compress_name_out(m, ls).len() <= name_wire(ls).len(),
{
    let ks = lower_texts(ls);
    let s = match_from(m, ks, 0);
    crate::label_map::lemma_match_from_bounds(m, ks, 0);
    if s < ls.len() {
        lemma_labels_wire_split(ls, s);
        assert(labels_wire(ls.skip(s)).len() >= 1) by {
            assert(ls.skip(s).len() >= 1);
            assert(labels_wire(ls.skip(s)) == label_wire(ls.skip(s)[0]) + labels_wire(
                ls.skip(s).drop_first(),
            ));
        }
    }
}

/// Compression round-trip, one name at a time. Serializing a well-formed name
/// against a truthful dictionary at the end of the message gives bytes that
/// parse back — pointers followed — to a name equal to the original
/// (case-insensitively), consuming exactly the emitted bytes; and the
/// dictionary stays truthful about the grown message.
pub proof fn lemma_compress_name_roundtrip(m: Map<Seq<Seq<u8>>, u16>, ls: Seq<Seq<u8>>, b: Seq<u8>)
    requires
        map_tracks(m, b),
        crate::name::wf_name(ls),
        ls.len() > 0,
        b.len() + name_wire(ls).len() <= 0x4000,
    ensures
        ({
            let out = compress_name_out(m, ls);
            let b2 = b + out;
            let base = b.len() as int;
            &&& (match spec_parse_cname(b2, base, base) {
                Ok((ls2, e)) => lower_texts(ls2) == lower_texts(ls) && e == base + out.len(),
                Err(_) => false,
            })
            &&& map_tracks(insert_from(m, lower_texts(ls), base, 0), b2)
        }),
{
    let ks = lower_texts(ls);
    let s = match_from(m, ks, 0);
    let out = compress_name_out(m, ls);
    let b2 = b + out;
    let base = b.len() as int;
    crate::label_map::lemma_match_from_bounds(m, ks, 0);
    crate::name::lemma_lower_wire_len(ls);
    assert(name_wire(ls).len() == labels_wire(ls).len() + 1);
    lemma_labels_wire_split(ls, s);
    // the byte laid down at base + labels_wire(ls.take(j)).len(), for any j,
    // decodes to the suffix from j
    assert forall|j: int| #![trigger ls.take(j)] 0 <= j <= s implies ({
        let oj = base + labels_wire(ls.take(j)).len();
        match spec_parse_cname(b2, oj, oj) {
            Ok((tl, e)) => lower_texts(tl) == ks.skip(j) && e == base + out.len(),
            Err(_) => false,
        }
    }) by {
        let oj = base + labels_wire(ls.take(j)).len();
        let mid = ls.subrange(j, s);
        assert(ls.take(s) =~= ls.take(j) + mid);
        crate::wire::lemma_labels_wire_concat(ls.take(j), mid);
        let wmid = labels_wire(mid).len();
        assert(labels_wire(ls.take(s)).len() == labels_wire(ls.take(j)).len() + wmid);
        assert forall|i: int| 0 <= i < mid.len() implies 1 <= (#[trigger] mid[i]).len() <= 63 by {
            assert(mid[i] == ls[j + i]);
            assert(crate::label::valid_label_text(ls[j + i]) && ls[j + i].len() >= 1);
        }
        assert(b2.subrange(oj, oj + wmid) =~= labels_wire(mid)) by {
            assert forall|t: int| 0 <= t < wmid implies b2[oj + t] == labels_wire(mid)[t] by {
                assert(b2[oj + t] == out[labels_wire(ls.take(j)).len() + t]);
                assert(out[labels_wire(ls.take(j)).len() + t] == labels_wire(ls.take(s))[
                    labels_wire(ls.take(j)).len() + t]);
                assert(labels_wire(ls.take(s))[labels_wire(ls.take(j)).len() + t] == labels_wire(
                    mid,
                )[t]);
            }
        }
        let pos_p = base + labels_wire(ls.take(s)).len();
        if s < ls.len() {
            let off = m[ks.skip(s)];
            assert(m.contains_key(ks.skip(s)));
            assert(off < 0x4000 && off < b.len() && decodes_to(b, off as int, ks.skip(s)));
            lemma_parse_cname_extend(b, out, off as int, off as int);
            assert(b2[pos_p] == out[labels_wire(ls.take(s)).len() as int]);
            assert(b2[pos_p] == ptr_wire(off)[0]);
            assert(b2[pos_p + 1] == ptr_wire(off)[1]);
            lemma_decode_ptr(b2, pos_p, oj, off);
            lemma_decode_label_run(b2, oj, oj, mid);
            match spec_parse_cname(b2, off as int, off as int) {
                Ok((lsx, _)) => {
                    assert(spec_parse_cname(b2, oj, oj) == Ok::<
                        (Seq<Seq<u8>>, int),
                        ParseDataError,
                    >((mid + lsx, pos_p + 2)));
                    assert(lower_texts(mid + lsx) =~= ks.skip(j)) by {
                        assert(lower_texts(lsx) == ks.skip(s));
                        assert(lsx.len() == ls.len() - s) by {
                            assert(lower_texts(lsx).len() == lsx.len());
                            assert(ks.skip(s).len() == ls.len() - s);
                        }
                        assert(mid.len() == s - j);
                        assert forall|t: int| 0 <= t < ls.len() - j implies lower_texts(mid + lsx)[
                            t] == ks.skip(j)[t] by {
                            if t < s - j {
                                assert((mid + lsx)[t] == ls[j + t]);
                            } else {
                                assert((mid + lsx)[t] == lsx[t - (s - j)]);
                                assert(lower_texts(lsx)[t - (s - j)] == ks.skip(s)[t - (s - j)]);
                            }
                        }
                        assert(lower_texts(mid + lsx).len() == ks.skip(j).len()) by {
                            assert(lower_texts(lsx).len() == ks.skip(s).len());
                        }
                    }
                    assert(pos_p + 2 == base + out.len());
                },
                Err(_) => {
                    assert(false);
                },
            }
        } else {
            assert(out =~= labels_wire(ls) + seq![0u8]);
            assert(ls.take(s) =~= ls);
            assert(b2[pos_p] == out[labels_wire(ls).len() as int]);
            assert(b2[pos_p] == 0);
            assert(0 <= pos_p < b2.len());
            assert(spec_parse_cname(b2, pos_p, oj) == Ok::<(Seq<Seq<u8>>, int), ParseDataError>(
                (Seq::empty(), pos_p + 1),
            ));
            lemma_decode_label_run(b2, oj, oj, mid);
            assert(mid + Seq::<Seq<u8>>::empty() =~= mid);
            assert(spec_parse_cname(b2, oj, oj) == Ok::<(Seq<Seq<u8>>, int), ParseDataError>(
                (mid, pos_p + 1),
            ));
            assert(lower_texts(mid) =~= ks.skip(j));
            assert(pos_p + 1 == base + out.len());
        }
    }
    // the parse of the whole name
    assert(ls.take(0int) =~= Seq::<Seq<u8>>::empty());
    assert(labels_wire(ls.take(0int)).len() == 0);
    assert(ks.skip(0int) =~= ks);
    // the grown dictionary stays truthful
    assert(labels_wire(ks.skip(0int)) == labels_wire(ks)) by {
        assert(ks.skip(0int) =~= ks);
    }
    crate::label_map::lemma_insert_from_spec(m, ks, base, 0);
    let m2 = insert_from(m, ks, base, 0);
    assert forall|k: Seq<Seq<u8>>| #[trigger] m2.contains_key(k) implies m2[k] < 0x4000 && m2[k]
        < b2.len() && decodes_to(b2, m2[k] as int, k) by {
        if m.contains_key(k) {
            assert(m2[k] == m[k]);
            assert(decodes_to(b, m[k] as int, k));
            lemma_parse_cname_extend(b, out, m[k] as int, m[k] as int);
        } else {
            let j = choose|j: int| 0 <= j < s && k == ks.skip(j);
            assert(m2[ks.skip(j)] == base + labels_wire(ks.subrange(0, j)).len());
            assert(labels_wire(ks.subrange(0, j)).len() == labels_wire(ls.take(j)).len()) by {
                assert(ks.subrange(0, j) =~= lower_texts(ls.take(j)));
                crate::name::lemma_lower_wire_len(ls.take(j));
            }
            let oj = base + labels_wire(ls.take(j)).len();
            assert(oj < base + out.len()) by {
                lemma_labels_wire_split(ls.take(s), j);
                assert(ls.take(s).take(j) =~= ls.take(j));
                assert(ls.take(s).skip(j) =~= ls.subrange(j, s));
                assert(ls.subrange(j, s).len() >= 1);
                assert(labels_wire(ls.subrange(j, s)) == label_wire(ls.subrange(j, s)[0])
                    + labels_wire(ls.subrange(j, s).drop_first()));
                if s < ls.len() {
                    assert(out.len() == labels_wire(ls.take(s)).len() + 2);
                } else {
                    assert(ls.take(s) =~= ls);
                    assert(out.len() == labels_wire(ls).len() + 1);
                }
            }
        }
    }
}

impl DomainName {
    /// Serialize the name against the dictionary. If some suffix of the name
    /// is recorded, emit the uncovered leading labels followed by a two-octet
    /// pointer to the suffix's offset; otherwise emit the plain wire form.
    /// Afterwards — so that a name never points at its own first occurrence —
    /// the full label sequence is inserted into the dictionary at
    /// `base_offset`.
    pub fn to_bytes_compressed(&self, base_offset: MessageOffset, label_map: &mut LabelMap) -> (outcome:
        SerializeCompressedOutcome)
        requires
            old(label_map).wf(),
            self@.len() > 0,
            base_offset + name_wire(self@).len() <= 0x4000,
        ensures
            final(label_map).wf(),
            final(label_map)@ == insert_from(
                old(label_map)@,
                lower_texts(self@),
                base_offset as int,
                0,
            ),
            outcome.compressed_bytes@ == compress_name_out(old(label_map)@, self@),
            outcome.new_offset == base_offset + compress_name_out(old(label_map)@, self@).len(),
    {
        let labels = self.labels();
        let ghost m = label_map@;
        let ghost ks = lower_texts(self@);
        proof {
            assert(crate::label_map::labels_key(labels@) =~= ks);
            assert(label_views(labels@) =~= self@);
        }
        let result = label_map.get_domain_ptr(labels);
        let (bytes, new_offset): (Vec<u8>, u16) = match result {
            Some((domain_ptr, remaining_labels)) => {
                let ghost s = match_from(m, ks, 0);
                proof {
                    crate::label_map::lemma_match_from_bounds(m, ks, 0);
                    lemma_labels_wire_split(self@, s);
                }
                let mut bytes: Vec<u8> = Vec::new();
                let k = remaining_labels.len();
                let mut i: usize = 0;
                proof {
                    assert(self@.take(0int) =~= Seq::<Seq<u8>>::empty());
                }
                while i < k
                    invariant
                        0 <= i <= k,
                        k == remaining_labels@.len() == s,
                        s <= self@.len(),
                        forall|j: int|
                            0 <= j < k ==> (#[trigger] remaining_labels@[j])@ == self@[j],
                        bytes@ == labels_wire(self@.take(i as int)),
                    decreases k - i,
                {
                    let mut piece = remaining_labels[i].to_bytes();
                    proof {
                        lemma_labels_wire_take_succ(self@, i as int);
                    }
                    bytes.append(&mut piece);
                    i += 1;
                }
                let mut ptr_bytes = domain_ptr.to_bytes();
                bytes.append(&mut ptr_bytes);
                proof {
                    assert(bytes@ =~= labels_wire(self@.take(s)) + ptr_wire(m[ks.skip(s)]));
                    assert(labels_wire(self@.take(s)).len() + labels_wire(self@.skip(s)).len()
                        == labels_wire(self@).len());
                    assert(name_wire(self@).len() == labels_wire(self@).len() + 1);
                }
                let new_offset = base_offset + (bytes.len() as u16);
                (bytes, new_offset)
            },
            None => {
                let bytes = self.to_bytes();
                let new_offset = base_offset + (bytes.len() as u16);
                (bytes, new_offset)
            },
        };
        proof {
            assert(labels_wire(label_views(labels@)) == labels_wire(self@));
            assert(labels_wire(self@).len() == name_wire(self@).len() - 1);
        }
        label_map.insert(labels, base_offset);
        SerializeCompressedOutcome { compressed_bytes: bytes, new_offset }
    }

    /// Parse a possibly compressed domain name at `base_offset`. Pointer
    /// targets may lie anywhere earlier in the message, so the whole message
    /// must be at hand; pointer chains are followed, and a pointer that does
    /// not lead strictly backwards is rejected as invalid. Returns the name
    /// and the offset just after it in the segment where parsing began.
    pub fn parse_compressed(full_message_bytes: &[u8], base_offset: MessageOffset) -> (r: Result<
        (Self, MessageOffset),
        ParseDataError,
    >)
        requires
            full_message_bytes@.len() <= 0xFFFF,
        ensures
            ({
                let sp = spec_parse_cname(
                    full_message_bytes@,
                    base_offset as int,
                    base_offset as int,
                );
                match r {
                    Ok((n, end)) => sp == Ok::<(Seq<Seq<u8>>, int), ParseDataError>(
                        (n@, end as int),
                    ),
                    Err(e) => sp == Err::<(Seq<Seq<u8>>, int), ParseDataError>(e),
                }
            }),
    {
        let b = full_message_bytes;
        let n = b.len();
        let mut labels: Vec<DomainLabel> = Vec::new();
        let mut pos: usize = base_offset as usize;
        let mut seg: usize = base_offset as usize;
        let mut first_end: Option<u16> = None;
        proof {
            assert(label_views(labels@) =~= Seq::<Seq<u8>>::empty());
            assert forall|ls2: Seq<Seq<u8>>| #[trigger] (label_views(labels@) + ls2) == ls2 by {
                assert(label_views(labels@) + ls2 =~= ls2);
            }
        }
        loop
            invariant
                b@ == full_message_bytes@,
                n == b@.len() <= 0xFFFF,
                pos <= 0xFFFF + 2,
                match first_end {
                    Some(e) => e <= n,
                    None => pos <= 0xFFFF,
                },
                spec_parse_cname(b@, base_offset as int, base_offset as int) == match
                    spec_parse_cname(b@, pos as int, seg as int) {
                    Ok((ls, e)) => Ok::<(Seq<Seq<u8>>, int), ParseDataError>(
                        (
                            label_views(labels@) + ls,
                            match first_end {
                                Some(fe) => fe as int,
                                None => e,
                            },
                        ),
                    ),
                    Err(er) => Err::<(Seq<Seq<u8>>, int), ParseDataError>(
                        match first_end {
                            Some(_) => ParseDataError::InvalidDomainPointer,
                            None => er,
                        },
                    ),
                },
            decreases seg, b@.len() - pos,
        {
            if pos >= n {
                return Err(
                    if first_end.is_some() {
                        ParseDataError::InvalidDomainPointer
                    } else {
                        ParseDataError::InvalidByteStructure
                    },
                );
            }
            let b0 = b[pos];
            if b0 >= 192 {
                if pos + 1 >= n {
                    return Err(
                        if first_end.is_some() {
                            ParseDataError::InvalidDomainPointer
                        } else {
                            ParseDataError::InvalidByteStructure
                        },
                    );
                }
                let t = ((b0 - 192) as usize) * 256 + (b[pos + 1] as usize);
                if t >= seg {
                    return Err(ParseDataError::InvalidDomainPointer);
                }
                if first_end.is_none() {
                    first_end = Some((pos + 2) as u16);
                }
                pos = t;
                seg = t;
            } else if b0 == 0 {
                let end: u16 = match first_end {
                    Some(e) => e,
                    None => (pos + 1) as u16,
                };
                proof {
                    assert(label_views(labels@) + Seq::<Seq<u8>>::empty() =~= label_views(
                        labels@,
                    ));
                }
                return Ok((DomainName::from_label(labels), end));
            } else {
                match DomainLabel::parse_at(b, pos) {
                    Err(_) => {
                        return Err(
                            if first_end.is_some() {
                                ParseDataError::InvalidDomainPointer
                            } else {
                                ParseDataError::InvalidByteStructure
                            },
                        );
                    },
                    Ok((l, newpos)) => {
                        proof {
                            let ghost_ls = labels@;
                            assert forall|rest: Seq<Seq<u8>>|
                                label_views(ghost_ls.push(l)) + rest =~= label_views(ghost_ls) + (
                                seq![l@] + rest) by {
                                assert(label_views(ghost_ls.push(l)) =~= label_views(
                                    ghost_ls,
                                ).push(l@));
                            }
                        }
                        labels.push(l);
                        pos = newpos;
                    },
                }
            }
        }
    }
}

} // verus!
