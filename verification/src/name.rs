//! Domain names: ordered sequences of labels, their validation from dotted
//! text, and the plain (uncompressed) wire codec of RFC 1035 section 3.1.

use vstd::prelude::*;

use crate::label::{
    label_check, spec_parse_label, valid_label_text, DomainLabel, DomainLabelValidationError,
};
use crate::wire::{
    ascii_bytes, label_wire, labels_wire, lemma_labels_wire_take_succ, lower_bytes, name_wire,
};
use crate::ParseDataError;

verus! {

broadcast use vstd::string::is_ascii_spec_bytes;

/// Why a piece of dotted text was rejected as a domain name.
#[derive(Debug, Clone, Copy, PartialEq, Eq, Structural)]
pub enum DomainNameValidationError {
    /// A dot-separated part failed label validation; the first failure is
    /// carried along.
    LabelValidationError(DomainLabelValidationError),
    /// The label texts together exceed 255 octets.
    NameTooLong,
    /// The text is not pure ASCII.
    InvalidAscii,
}

/// The texts of a sequence of labels.
pub open spec fn label_views(ls: Seq<DomainLabel>) -> Seq<Seq<u8>> {
    ls.map_values(|l: DomainLabel| l@)
}

/// Lower-cased label texts: the form in which names compare and are keyed.
pub open spec fn lower_texts(ls: Seq<Seq<u8>>) -> Seq<Seq<u8>> {
    ls.map_values(|t: Seq<u8>| lower_bytes(t))
}

/// The summed length of the label texts, not counting length octets.
pub open spec fn texts_len(ls: Seq<Seq<u8>>) -> int
    decreases ls.len(),
{
    if ls.len() == 0 {
        0
    } else {
        ls[0].len() + texts_len(ls.drop_first())
    }
}

pub proof fn lemma_texts_len_push(ls: Seq<Seq<u8>>, t: Seq<u8>)
    ensures
        texts_len(ls.push(t)) == texts_len(ls) + t.len(),
    decreases ls.len(),
{
    if ls.len() == 0 {
        assert(ls.push(t).drop_first() =~= ls);
    } else {
        assert(ls.push(t).drop_first() =~= ls.drop_first().push(t));
        lemma_texts_len_push(ls.drop_first(), t);
    }
}

/// Case folding keeps every label's length, so it keeps wire lengths too.
pub proof fn lemma_lower_wire_len(xs: Seq<Seq<u8>>)
    ensures
        labels_wire(lower_texts(xs)).len() == labels_wire(xs).len(),
    decreases xs.len(),
{
    if xs.len() == 0 {
        assert(lower_texts(xs) =~= Seq::<Seq<u8>>::empty());
    } else {
        assert(lower_texts(xs).drop_first() =~= lower_texts(xs.drop_first()));
        lemma_lower_wire_len(xs.drop_first());
        assert(lower_texts(xs)[0] == lower_bytes(xs[0]));
        assert(labels_wire(lower_texts(xs)) == label_wire(lower_bytes(xs[0])) + labels_wire(
            lower_texts(xs.drop_first()),
        ));
    }
}

/// A well-formed domain name: every label valid and non-empty, and the label
/// texts together at most 255 octets.
pub open spec fn wf_name(ls: Seq<Seq<u8>>) -> bool {
    &&& forall|i: int| 0 <= i < ls.len() ==> valid_label_text(#[trigger] ls[i]) && ls[i].len() >= 1
    &&& texts_len(ls) <= 255
}

/// The dot-separated parts of `s` starting at position `i`. An empty tail,
/// and each dot, contributes an (empty) part, as text splitting does.
pub open spec fn split_dots_from(s: Seq<u8>, i: int) -> Seq<Seq<u8>>
    decreases s.len() - i,
{
    if i < 0 || i >= s.len() {
        seq![Seq::<u8>::empty()]
    } else if s[i] == 46 {
        seq![Seq::<u8>::empty()] + split_dots_from(s, i + 1)
    } else {
        let rest = split_dots_from(s, i + 1);
        seq![seq![s[i]] + rest[0]] + rest.drop_first()
    }
}

pub proof fn lemma_split_dots_from_len(s: Seq<u8>, i: int)
    ensures
        split_dots_from(s, i).len() >= 1,
    decreases s.len() - i,
{
    if i < 0 || i >= s.len() {
    } else {
        lemma_split_dots_from_len(s, i + 1);
    }
}

/// A run of non-dot characters from `i` to `j` forms one part, and splitting
/// continues after the dot at `j` if there is one.
pub proof fn lemma_split_run(s: Seq<u8>, i: int, j: int)
    requires
        0 <= i <= j <= s.len(),
        forall|k: int| i <= k < j ==> s[k] != 46,
        j == s.len() || s[j] == 46,
    ensures
        split_dots_from(s, i) == if j == s.len() {
            seq![s.subrange(i, j)]
        } else {
            seq![s.subrange(i, j)] + split_dots_from(s, j + 1)
        },
    decreases j - i,
{
    if i == j {
        if j == s.len() {
            assert(split_dots_from(s, i) =~~= seq![s.subrange(i, j)]);
        } else {
            assert(s[i] == 46);
            assert(split_dots_from(s, i) =~~= seq![s.subrange(i, j)] + split_dots_from(s, j + 1));
        }
    } else {
        assert(s[i] != 46);
        lemma_split_run(s, i + 1, j);
        lemma_split_dots_from_len(s, i + 1);
        if j == s.len() {
            assert(seq![s[i]] + split_dots_from(s, i + 1)[0] =~= s.subrange(i, j));
            assert(split_dots_from(s, i) =~~= seq![s.subrange(i, j)]);
        } else {
            assert(seq![s[i]] + split_dots_from(s, i + 1)[0] =~= s.subrange(i, j));
            assert(split_dots_from(s, i) =~~= seq![s.subrange(i, j)] + split_dots_from(s, j + 1));
        }
    }
}

/// The index of the first part failing label validation, or -1 when all pass.
pub open spec fn first_invalid(parts: Seq<Seq<u8>>) -> int
    decreases parts.len(),
{
    if parts.len() == 0 {
        -1
    } else if !valid_label_text(parts[0]) {
        0
    } else {
        let r = first_invalid(parts.drop_first());
        if r < 0 {
            -1
        } else {
            r + 1
        }
    }
}

pub proof fn lemma_first_invalid_at(parts: Seq<Seq<u8>>, k: int)
    requires
        0 <= k < parts.len(),
        forall|j: int| 0 <= j < k ==> valid_label_text(#[trigger] parts[j]),
        !valid_label_text(parts[k]),
    ensures
        first_invalid(parts) == k,
    decreases parts.len(),
{
    if k == 0 {
    } else {
        lemma_first_invalid_at(parts.drop_first(), k - 1);
    }
}

pub proof fn lemma_first_invalid_none(parts: Seq<Seq<u8>>)
    requires
        forall|j: int| 0 <= j < parts.len() ==> valid_label_text(#[trigger] parts[j]),
    ensures
        first_invalid(parts) == -1,
    decreases parts.len(),
{
    if parts.len() > 0 {
        lemma_first_invalid_none(parts.drop_first());
    }
}

// ---------------------------------------------------------------------------
// The plain wire parser, at the specification level
// ---------------------------------------------------------------------------

/// Parse a whole domain name at `pos`: labels in order up to and including the
/// root label. Returns the label texts (the root label excluded) and the
/// position just after the root label, or `None` if the buffer runs out first.
pub open spec fn spec_parse_name(b: Seq<u8>, pos: int) -> Option<(Seq<Seq<u8>>, int)>
    decreases b.len() - pos,
{
    match spec_parse_label(b, pos) {
        None => None,
        Some((t, end)) => {
            if t.len() == 0 {
                Some((Seq::empty(), end))
            } else {
                match spec_parse_name(b, end) {
                    None => None,
                    Some((rest, e2)) => Some((seq![t] + rest, e2)),
                }
            }
        },
    }
}

/// Parsing is position-independent: a name parsed after an arbitrary prefix
/// parses to the same labels, shifted.
pub proof fn lemma_parse_name_prepend(a: Seq<u8>, b: Seq<u8>, pos: int)
    requires
        pos >= 0,
    ensures
        spec_parse_name(a + b, a.len() + pos) == match spec_parse_name(b, pos) {
            None => None,
            Some((ls, e)) => Some((ls, a.len() + e)),
        },
    decreases b.len() - pos,
{
    let w = a + b;
    if pos >= b.len() {
        assert(spec_parse_label(w, a.len() + pos) is None);
        assert(spec_parse_label(b, pos) is None);
    } else {
        assert(w[a.len() + pos] == b[pos]);
        match spec_parse_label(b, pos) {
            None => {
                assert(spec_parse_label(w, a.len() + pos) is None);
            },
            Some((t, end)) => {
                assert(w.subrange(a.len() + pos + 1, a.len() + pos + 1 + w[a.len() + pos]) =~= t);
                assert(spec_parse_label(w, a.len() + pos) == Some((t, a.len() + end)));
                if t.len() != 0 {
                    lemma_parse_name_prepend(a, b, end);
                }
            },
        }
    }
}

/// A successful plain parse reads only within `b`: appending bytes to the
/// buffer changes nothing about it.
pub proof fn lemma_parse_name_extend(b: Seq<u8>, ext: Seq<u8>, pos: int)
    requires
        spec_parse_name(b, pos) is Some,
    ensures
        spec_parse_name(b + ext, pos) == spec_parse_name(b, pos),
    decreases b.len() - pos,
{
    let w = b + ext;
    match spec_parse_label(b, pos) {
        None => {
            assert(false);
        },
        Some((t, end)) => {
            assert(w[pos] == b[pos]);
            assert(spec_parse_label(w, pos) == Some((t, end))) by {
                assert(w.subrange(pos + 1, pos + 1 + w[pos]) =~= b.subrange(
                    pos + 1,
                    pos + 1 + b[pos],
                ));
            }
            if t.len() != 0 {
                lemma_parse_name_extend(b, ext, end);
            }
        },
    }
}

/// Round-trip identity: the wire form of any well-formed domain name parses
/// back to exactly the same label texts and consumes the buffer fully.
pub proof fn lemma_name_wire_roundtrip(ls: Seq<Seq<u8>>)
    requires
        wf_name(ls),
    ensures
        spec_parse_name(name_wire(ls), 0) == Some((ls, name_wire(ls).len() as int)),
    decreases ls.len(),
{
    let w = name_wire(ls);
    if ls.len() == 0 {
        assert(w =~= seq![0u8]);
        assert(spec_parse_label(w, 0) == Some((w.subrange(1, 1), 1int)));
        assert(spec_parse_name(w, 0) == Some((Seq::<Seq<u8>>::empty(), 1int)));
        assert(ls =~= Seq::<Seq<u8>>::empty());
    } else {
        let head = label_wire(ls[0]);
        let tail = name_wire(ls.drop_first());
        assert(ls.drop_first().len() == ls.len() - 1);
        assert(texts_len(ls) == ls[0].len() + texts_len(ls.drop_first()));
        assert(wf_name(ls.drop_first()));
        assert(w =~= head + tail);
        let n = ls[0].len() as int;
        assert(w[0] == n as u8);
        assert(1 <= n <= 63);
        assert(w.subrange(1, 1 + n) =~= ls[0]);
        assert(spec_parse_label(w, 0) == Some((ls[0], 1 + n)));
        lemma_name_wire_roundtrip(ls.drop_first());
        lemma_parse_name_prepend(head, tail, 0);
        assert(head.len() == 1 + n);
        assert(spec_parse_name(w, 1 + n) == Some((ls.drop_first(), 1 + n + tail.len())));
        assert(seq![ls[0]] + ls.drop_first() =~= ls);
        assert(1 + n + tail.len() == w.len());
    }
}

/// Malformed input rejection: a buffer without a zero-length root label
/// anywhere never parses as a domain name, from any starting position.
pub proof fn lemma_unterminated_name_fails(b: Seq<u8>, pos: int)
    requires
        pos >= 0,
        forall|i: int| 0 <= i < b.len() ==> b[i] != 0,
    ensures
        spec_parse_name(b, pos) is None,
    decreases b.len() - pos,
{
    match spec_parse_label(b, pos) {
        None => {},
        Some((t, end)) => {
            assert(t.len() == b[pos]);
            assert(b[pos] != 0);
            lemma_unterminated_name_fails(b, end);
        },
    }
}

// ---------------------------------------------------------------------------
// The executable type
// ---------------------------------------------------------------------------

/// An ordered sequence of labels naming a node of the domain name space. The
/// view is the sequence of label texts; the terminating root label is not
/// represented and is added on the wire.
#[derive(Debug)]
pub struct DomainName {
    domain_labels: Vec<DomainLabel>,
}

impl View for DomainName {
    type V = Seq<Seq<u8>>;

    closed spec fn view(&self) -> Seq<Seq<u8>> {
        label_views(self.domain_labels@)
    }
}

impl Clone for DomainName {
    fn clone(&self) -> (r: Self)
        ensures
            r@ == self@,
    {
        DomainName { domain_labels: crate::name::clone_labels_slice(self.domain_labels.as_slice()) }
    }
}

impl PartialEq for DomainName {
    /// Names compare position-wise and case-insensitively.
    fn eq(&self, other: &Self) -> (r: bool) {
        if self.domain_labels.len() != other.domain_labels.len() {
            proof {
                assert(lower_texts(self@).len() != lower_texts(other@).len());
            }
            return false;
        }
        let n = self.domain_labels.len();
        let mut i: usize = 0;
        while i < n
            invariant
                0 <= i <= n,
                n == self.domain_labels@.len() == other.domain_labels@.len(),
                forall|j: int|
                    0 <= j < i ==> lower_bytes(#[trigger] self.domain_labels@[j]@) == lower_bytes(
                        other.domain_labels@[j]@,
                    ),
            decreases n - i,
        {
            if !self.domain_labels[i].eq_label(&other.domain_labels[i]) {
                proof {
                    assert(lower_texts(self@)[i as int] != lower_texts(other@)[i as int]);
                }
                return false;
            }
            i += 1;
        }
        proof {
            assert(lower_texts(self@) =~= lower_texts(other@));
        }
        true
    }
}

impl Eq for DomainName {}

impl vstd::std_specs::cmp::PartialEqSpecImpl for DomainName {
    open spec fn obeys_eq_spec() -> bool {
        true
    }

    open spec fn eq_spec(&self, other: &Self) -> bool {
        lower_texts(self@) == lower_texts(other@)
    }
}

/// Copy a run of labels into a fresh vector, text for text.
pub fn clone_labels_slice(ls: &[DomainLabel]) -> (r: Vec<DomainLabel>)
    ensures
        label_views(r@) == label_views(ls@),
        r@.len() == ls@.len(),
        forall|j: int| 0 <= j < ls@.len() ==> #[trigger] r@[j]@ == ls@[j]@,
{
    let mut out: Vec<DomainLabel> = Vec::new();
    let n = ls.len();
    let mut i: usize = 0;
    while i < n
        invariant
            0 <= i <= n,
            n == ls@.len(),
            out@.len() == i,
            forall|j: int| 0 <= j < i ==> #[trigger] out@[j]@ == ls@[j]@,
        decreases n - i,
    {
        let l = &ls[i];
        out.push(l.clone());
        i += 1;
    }
    proof {
        assert(label_views(out@) =~= label_views(ls@));
    }
    out
}

impl DomainName {
    /// Wrap a sequence of labels as a name, as given.
    pub fn new(labels: Vec<DomainLabel>) -> (r: Self)
        ensures
            r@ == label_views(labels@),
    {
        DomainName { domain_labels: labels }
    }

    /// The labels of the name, in order.
    pub fn labels(&self) -> (r: &[DomainLabel])
        ensures
            label_views(r@) == self@,
            r@.len() == self@.len(),
            forall|j: int| 0 <= j < r@.len() ==> (#[trigger] r@[j])@ == self@[j],
    {
        self.domain_labels.as_slice()
    }

    /// Wrap a sequence of labels as a name, as given.
    pub fn from_label(labels: Vec<DomainLabel>) -> (r: Self)
        ensures
            r@ == label_views(labels@),
    {
        DomainName { domain_labels: labels }
    }

    /// Validate dotted ASCII text as a domain name: each dot-separated part
    /// must be a valid label and the texts together at most 255 octets. The
    /// first failing part decides the error.
    pub fn try_from(value: &str) -> (r: Result<Self, DomainNameValidationError>)
        ensures
            ({
                let parts = split_dots_from(ascii_bytes(value@), 0);
                match r {
                    Ok(n) => {
                        &&& value.is_ascii()
                        &&& forall|i: int|
                            0 <= i < parts.len() ==> valid_label_text(#[trigger] parts[i])
                        &&& texts_len(parts) <= 255
                        &&& n@ == parts
                    },
                    Err(DomainNameValidationError::InvalidAscii) => !value.is_ascii(),
                    Err(DomainNameValidationError::LabelValidationError(e)) => {
                        &&& value.is_ascii()
                        &&& first_invalid(parts) >= 0
                        &&& label_check(parts[first_invalid(parts)]) == Err::<
                            (),
                            DomainLabelValidationError,
                        >(e)
                    },
                    Err(DomainNameValidationError::NameTooLong) => {
                        &&& value.is_ascii()
                        &&& forall|i: int|
                            0 <= i < parts.len() ==> valid_label_text(#[trigger] parts[i])
                        &&& texts_len(parts) > 255
                    },
                }
            }),
    {
        if !value.is_ascii() {
            return Err(DomainNameValidationError::InvalidAscii);
        }
        let b: &[u8] = value.as_bytes();
        proof {
            assert(b@ =~= ascii_bytes(value@));
        }
        let ghost parts = split_dots_from(b@, 0);
        let n = b.len();
        let mut labels: Vec<DomainLabel> = Vec::new();
        let mut start: usize = 0;
        let mut total: usize = 0;
        loop
            invariant_except_break
                0 <= start <= n,
                total <= start,
                parts =~= label_views(labels@) + split_dots_from(b@, start as int),
            invariant
                n == b@.len(),
                value.is_ascii(),
                b@ == ascii_bytes(value@),
                total == texts_len(label_views(labels@)),
                parts == split_dots_from(b@, 0),
                forall|j: int|
                    0 <= j < labels@.len() ==> valid_label_text(#[trigger] labels@[j]@),
            ensures
                total == texts_len(label_views(labels@)),
                parts =~= label_views(labels@),
                forall|j: int|
                    0 <= j < labels@.len() ==> valid_label_text(#[trigger] labels@[j]@),
            decreases n - start,
        {
            let mut j = start;
            while j < n && b[j] != 46
                invariant
                    start <= j <= n,
                    n == b@.len(),
                    forall|k: int| start <= k < j ==> b@[k] != 46,
                decreases n - j,
            {
                j += 1;
            }
            proof {
                lemma_split_run(b@, start as int, j as int);
            }
            let seg = vstd::slice::slice_subrange(b, start, j);
            match DomainLabel::try_from_text_bytes(seg) {
                Err(e) => {
                    proof {
                        let k = labels@.len() as int;
                        assert(parts[k] == seg@);
                        assert forall|j2: int| 0 <= j2 < k implies valid_label_text(
                            #[trigger] parts[j2],
                        ) by {
                            assert(parts[j2] == labels@[j2]@);
                        }
                        lemma_first_invalid_at(parts, k);
                    }
                    return Err(DomainNameValidationError::LabelValidationError(e));
                },
                Ok(l) => {
                    proof {
                        lemma_texts_len_push(label_views(labels@), l@);
                        assert(label_views(labels@.push(l)) =~= label_views(labels@).push(l@));
                    }
                    total = total + (j - start);
                    labels.push(l);
                },
            }
            if j == n {
                proof {
                    assert(parts =~= label_views(labels@));
                }
                break ;
            }
            start = j + 1;
        }
        proof {
            assert forall|i: int| 0 <= i < parts.len() implies valid_label_text(
                #[trigger] parts[i],
            ) by {
                assert(parts[i] == labels@[i]@);
            }
            lemma_first_invalid_none(parts);
        }
        if total > 255 {
            return Err(DomainNameValidationError::NameTooLong);
        }
        Ok(DomainName { domain_labels: labels })
    }

    /// The plain wire form: each label's wire form in order, then the root
    /// label's single zero octet.
    pub fn to_bytes(&self) -> (r: Vec<u8>)
        ensures
            r@ == name_wire(self@),
    {
        let mut out: Vec<u8> = Vec::new();
        let n = self.domain_labels.len();
        let mut i: usize = 0;
        while i < n
            invariant
                0 <= i <= n,
                n == self.domain_labels@.len(),
                out@ == labels_wire(self@.take(i as int)),
            decreases n - i,
        {
            let mut piece = self.domain_labels[i].to_bytes();
            proof {
                lemma_labels_wire_take_succ(self@, i as int);
            }
            out.append(&mut piece);
            i += 1;
        }
        proof {
            assert(self@.take(n as int) =~= self@);
        }
        out.push(0);
        proof {
            assert(out@ =~= name_wire(self@));
        }
        out
    }

    /// Parse a plain domain name from the front of `bytes`: labels up to and
    /// including the first root label. Returns the name and the count of
    /// bytes consumed; fails if the buffer runs out before a root label.
    pub fn parse(bytes: &[u8]) -> (r: Result<(Self, usize), ParseDataError>)
        ensures
            match r {
                Ok(p) => spec_parse_name(bytes@, 0) == Some((p.0@, p.1 as int)),
                Err(e) => {
                    &&& spec_parse_name(bytes@, 0) is None
                    &&& e == ParseDataError::InvalidByteStructure
                },
            },
    {
        match Self::parse_at(bytes, 0) {
            Ok(p) => Ok(p),
            Err(e) => Err(e),
        }
    }

    /// Parse a plain domain name at position `pos` of `bytes`. Returns the
    /// name and the position just after its root label.
    pub fn parse_at(bytes: &[u8], pos: usize) -> (r: Result<(Self, usize), ParseDataError>)
        ensures
            match r {
                Ok(p) => spec_parse_name(bytes@, pos as int) == Some((p.0@, p.1 as int)),
                Err(e) => {
                    &&& spec_parse_name(bytes@, pos as int) is None
                    &&& e == ParseDataError::InvalidByteStructure
                },
            },
    {
        let mut labels: Vec<DomainLabel> = Vec::new();
        let mut cur: usize = pos;
        loop
            invariant
                pos <= cur,
                cur <= bytes@.len() || cur == pos,
                spec_parse_name(bytes@, pos as int) == match spec_parse_name(bytes@, cur as int) {
                    None => None::<(Seq<Seq<u8>>, int)>,
                    Some((ls, e)) => Some((label_views(labels@) + ls, e)),
                },
            decreases bytes@.len() - cur,
        {
            match DomainLabel::parse_at(bytes, cur) {
                Err(_) => {
                    return Err(ParseDataError::InvalidByteStructure);
                },
                Ok((l, end)) => {
                    if l.is_empty() {
                        proof {
                            assert(label_views(labels@) + Seq::<Seq<u8>>::empty() =~= label_views(
                                labels@,
                            ));
                        }
                        return Ok((DomainName { domain_labels: labels }, end));
                    }
                    proof {
                        let ghost_ls = labels@;
                        assert forall|rest: Seq<Seq<u8>>|
                            label_views(ghost_ls.push(l)) + rest =~= label_views(ghost_ls) + (
                            seq![l@] + rest) by {
                            assert(label_views(ghost_ls.push(l)) =~= label_views(ghost_ls).push(
                                l@,
                            ));
                        }
                    }
                    labels.push(l);
                    cur = end;
                },
            }
        }
    }
}

} // verus!
