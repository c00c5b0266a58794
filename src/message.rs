//! The update record and its payload: a MessagePack map of one entry whose
//! key is the string `text` and whose value is the text itself.
use crate::frame::{be32_bytes, be32_from, be32_value, encode_frame, frame_of, lemma_be32_round_trip};
use vstd::prelude::*;
use vstd::string::StringSliceAdditionalSpecFns;
use vstd::utf8::*;

verus! {

/// MessagePack's string header for `n` bytes in one of its four forms:
/// fixstr (0), str8 (1), str16 (2) and str32 (3).
pub open spec fn str_header_as(form: nat, n: nat) -> Seq<u8> {
    if form == 0 {
        seq![(0xa0 + n) as u8]
    } else if form == 1 {
        seq![0xd9u8, n as u8]
    } else if form == 2 {
        seq![0xdau8, (n / 256) as u8, (n % 256) as u8]
    } else {
        seq![0xdbu8] + be32_bytes(n as u32)
    }
}

/// Whether the string header form `form` can carry the length `n`.
pub open spec fn form_fits(form: nat, n: nat) -> bool {
    ||| form == 0 && n < 32
    ||| form == 1 && n < 256
    ||| form == 2 && n < 65536
    ||| form == 3 && n <= u32::MAX
}

/// The narrowest string header form for `n` bytes.
pub open spec fn shortest_form(n: nat) -> nat {
    if n < 32 {
        0
    } else if n < 256 {
        1
    } else if n < 65536 {
        2
    } else {
        3
    }
}

/// MessagePack's header for a string of `n` bytes, in its shortest form.
pub open spec fn str_header(n: nat) -> Seq<u8> {
    str_header_as(shortest_form(n), n)
}

/// The bytes of a packed string: its header, then the string's bytes.
pub open spec fn packed_str(bytes: Seq<u8>) -> Seq<u8> {
    str_header(bytes.len()) + bytes
}

/// The name of the record's one field, `text`.
pub open spec fn key_bytes() -> Seq<u8> {
    seq![0x74u8, 0x65u8, 0x78u8, 0x74u8]
}

/// The packed key of the record's one field.
pub open spec fn text_key() -> Seq<u8> {
    seq![0xa4u8] + key_bytes()
}

/// The payload of a record whose text has the UTF-8 bytes `text`.
pub open spec fn payload_of(text: Seq<u8>) -> Seq<u8> {
    seq![0x81u8] + text_key() + packed_str(text)
}

/// A text can be sent when its payload's length fits a frame header.
pub open spec fn encodable(text: Seq<char>) -> bool {
    payload_of(encode_utf8(text)).len() <= u32::MAX
}

/// The frame that carries the record with text `text`.
pub open spec fn record_frame(text: Seq<char>) -> Seq<u8> {
    frame_of(payload_of(encode_utf8(text)))
}

/// The header of a map of one entry (`is_map`) or an array of one element,
/// with its count in the header byte (0), in 16 bits (1) or in 32 bits (2).
pub open spec fn one_entry_header(is_map: bool, form: nat) -> Seq<u8> {
    if form == 0 {
        seq![if is_map { 0x81u8 } else { 0x91u8 }]
    } else if form == 1 {
        seq![if is_map { 0xdeu8 } else { 0xdcu8 }, 0u8, 1u8]
    } else {
        seq![if is_map { 0xdfu8 } else { 0xddu8 }, 0u8, 0u8, 0u8, 1u8]
    }
}

/// A MessagePack spelling of the record whose text has the UTF-8 bytes
/// `text`: a map of one entry keyed by `text`, or an array of one element,
/// under the given container and string header forms.
pub open spec fn spelled(is_map: bool, cform: nat, kform: nat, vform: nat, text: Seq<u8>) -> Seq<u8> {
    one_entry_header(is_map, cform) + (if is_map {
        str_header_as(kform, 4) + key_bytes()
    } else {
        Seq::<u8>::empty()
    }) + str_header_as(vform, text.len()) + text
}

/// The range of `n` bytes of `b` from index `start`, when `b` holds them all.
pub open spec fn span_of(b: Seq<u8>, start: int, n: int) -> Option<(int, int)> {
    if start + n <= b.len() {
        Some((start, start + n))
    } else {
        None
    }
}

/// The bytes of the string packed at index `i` of `b`, under any of the
/// four string header forms, as a range of `b`.
pub open spec fn str_span(b: Seq<u8>, i: int) -> Option<(int, int)> {
    if 0 <= i < b.len() {
        let m = b[i];
        if 0xa0 <= m <= 0xbf {
            span_of(b, i + 1, m - 0xa0)
        } else if m == 0xd9 && i + 2 <= b.len() {
            span_of(b, i + 2, b[i + 1] as int)
        } else if m == 0xda && i + 3 <= b.len() {
            span_of(b, i + 3, b[i + 1] * 256 + b[i + 2])
        } else if m == 0xdb && i + 5 <= b.len() {
            span_of(b, i + 5, be32_value(b[i + 1], b[i + 2], b[i + 3], b[i + 4]) as int)
        } else {
            None
        }
    } else {
        None
    }
}

/// Whether `b` starts as a map of one entry or an array of one element, and
/// where that entry starts.
pub open spec fn body_start(b: Seq<u8>) -> Option<(bool, int)> {
    if b.len() >= 1 && (b[0] == 0x81 || b[0] == 0x91) {
        Some((b[0] == 0x81, 1))
    } else if b.len() >= 3 && (b[0] == 0xde || b[0] == 0xdc) && b[1] == 0 && b[2] == 1 {
        Some((b[0] == 0xde, 3))
    } else if b.len() >= 5 && (b[0] == 0xdf || b[0] == 0xdd) && b[1] == 0 && b[2] == 0 && b[3]
        == 0 && b[4] == 1 {
        Some((b[0] == 0xdf, 5))
    } else {
        None
    }
}

/// Where the record's text lies in `b`: after the key `text` in a map, or as
/// the one element of an array.
pub open spec fn text_span(b: Seq<u8>) -> Option<(int, int)> {
    match body_start(b) {
        None => None,
        Some((is_map, j)) => if !is_map {
            str_span(b, j)
        } else {
            match str_span(b, j) {
                Some((ks, ke)) => if b.subrange(ks, ke) == key_bytes() {
                    str_span(b, ke)
                } else {
                    None
                },
                None => None,
            }
        },
    }
}

/// The text that a payload carries, if it is one: a record whose text is
/// valid UTF-8, with nothing after it.
pub open spec fn decoded(b: Seq<u8>) -> Option<Seq<char>> {
    match text_span(b) {
        Some((s, e)) => if e == b.len() && valid_utf8(b.subrange(s, e)) {
            Some(decode_utf8(b.subrange(s, e)))
        } else {
            None
        },
        None => None,
    }
}

/// Relies on rmp_serde::to_vec_named on a map of one entry: rmp's
/// `write_map_len` writes the one-entry map header `0x81`, then rmp's
/// `write_str` packs the key and the value, each as its shortest string
/// header and its UTF-8 bytes. The encoder's one failure is a memory
/// reservation that fails, which this library, like `Vec::push`, leaves out.
#[verifier::external_body]
fn pack_entry(key: &str, value: &str) -> (r: Option<Vec<u8>>)
    requires
        key.spec_bytes().len() <= u32::MAX,
        value.spec_bytes().len() <= u32::MAX,
    ensures
        r is Some,
        r->Some_0@ == seq![0x81u8] + packed_str(key.spec_bytes()) + packed_str(value.spec_bytes()),
{
    let mut entry = std::collections::BTreeMap::new();
    entry.insert(key, value);
    rmp_serde::to_vec_named(&entry).ok()
}

/// Relies on String::from_utf8: it succeeds exactly on valid UTF-8, and the
/// string holds the characters those bytes encode.
#[verifier::external_body]
fn string_from_utf8(bytes: Vec<u8>) -> (r: Option<String>)
    ensures
        r is Some <==> valid_utf8(bytes@),
        r is Some ==> r->Some_0@ == decode_utf8(bytes@),
{
    String::from_utf8(bytes).ok()
}

proof fn lemma_header_len(n: nat)
    ensures
        n < 32 ==> str_header(n).len() == 1,
        32 <= n < 256 ==> str_header(n).len() == 2,
        256 <= n < 65536 ==> str_header(n).len() == 3,
        65536 <= n ==> str_header(n).len() == 5,
{
}

proof fn lemma_str_span(b: Seq<u8>, i: int, form: nat, bytes: Seq<u8>)
    requires
        form_fits(form, bytes.len()),
        0 <= i,
        i + str_header_as(form, bytes.len()).len() + bytes.len() <= b.len(),
        b.subrange(i, i + str_header_as(form, bytes.len()).len() + bytes.len()) == str_header_as(
            form,
            bytes.len(),
        ) + bytes,
    ensures
        str_span(b, i) == Some(
            (
                i + str_header_as(form, bytes.len()).len(),
                i + str_header_as(form, bytes.len()).len() + bytes.len(),
            ),
        ),
        b.subrange(
            i + str_header_as(form, bytes.len()).len(),
            i + str_header_as(form, bytes.len()).len() + bytes.len(),
        ) == bytes,
{
    let n = bytes.len();
    let hdr = str_header_as(form, n);
    let h = hdr.len() as int;
    let sub = b.subrange(i, i + h + n);
    assert forall|k: int| 0 <= k < h implies b[i + k] == hdr[k] by {
        assert(sub[k] == b[i + k]);
    }
    assert(b.subrange(i + h, i + h + n) =~= bytes) by {
        assert forall|k: int| 0 <= k < n implies b[i + h + k] == bytes[k] by {
            assert(sub[h + k] == b[i + h + k]);
        }
    }
    if form == 0 {
        assert(b[i] == hdr[0]);
        assert(h == 1);
        assert(b[i] - 0xa0 == n);
    } else if form == 1 {
        assert(b[i] == hdr[0] && b[i + 1] == hdr[1]);
        assert(h == 2);
        assert(b[i + 1] as int == n);
    } else if form == 2 {
        assert(b[i] == hdr[0] && b[i + 1] == hdr[1] && b[i + 2] == hdr[2]);
        assert(h == 3);
        assert((n / 256) * 256 + n % 256 == n);
        assert(b[i + 1] * 256 + b[i + 2] == n);
    } else {
        let v = n as u32;
        lemma_be32_round_trip(v);
        assert(h == 5);
        assert(hdr =~= seq![0xdbu8] + be32_bytes(v));
        assert(hdr[1] == be32_bytes(v)[0] && hdr[2] == be32_bytes(v)[1]);
        assert(hdr[3] == be32_bytes(v)[2] && hdr[4] == be32_bytes(v)[3]);
        assert(b[i] == hdr[0] && b[i + 1] == hdr[1] && b[i + 2] == hdr[2]);
        assert(b[i + 3] == hdr[3] && b[i + 4] == hdr[4]);
    }
}

proof fn lemma_body_start(b: Seq<u8>, is_map: bool, cform: nat)
    requires
        cform <= 2,
        one_entry_header(is_map, cform).len() <= b.len(),
        b.subrange(0, one_entry_header(is_map, cform).len() as int) == one_entry_header(
            is_map,
            cform,
        ),
    ensures
        body_start(b) == Some((is_map, one_entry_header(is_map, cform).len() as int)),
{
    let c = one_entry_header(is_map, cform);
    assert forall|k: int| 0 <= k < c.len() implies b[k] == c[k] by {
        assert(b.subrange(0, c.len() as int)[k] == b[k]);
    }
}

/// Every spelling of a record decodes to its text: a map of one entry keyed
/// by `text` or an array of one element, under any container header, and
/// each string under any header form wide enough for its length.
pub proof fn lemma_decodes_every_spelling(
    t: Seq<char>,
    is_map: bool,
    cform: nat,
    kform: nat,
    vform: nat,
)
    requires
        cform <= 2,
        form_fits(kform, 4),
        form_fits(vform, encode_utf8(t).len()),
    ensures
        decoded(spelled(is_map, cform, kform, vform, encode_utf8(t))) == Some(t),
{
    let e = encode_utf8(t);
    let c = one_entry_header(is_map, cform);
    let kh = str_header_as(kform, 4);
    let keypart = if is_map {
        kh + key_bytes()
    } else {
        Seq::<u8>::empty()
    };
    let vh = str_header_as(vform, e.len());
    let b = spelled(is_map, cform, kform, vform, e);
    assert(b == c + keypart + vh + e);
    let j = c.len() as int;
    let vs = j + keypart.len();
    assert(b.len() == vs + vh.len() + e.len());
    assert(b.subrange(0, j) =~= c);
    lemma_body_start(b, is_map, cform);
    assert(b.subrange(vs, vs + vh.len() + e.len()) =~= vh + e);
    lemma_str_span(b, vs, vform, e);
    if is_map {
        assert(b.subrange(j, j + kh.len() + 4) =~= kh + key_bytes());
        lemma_str_span(b, j, kform, key_bytes());
    }
    assert(text_span(b) == Some((vs + vh.len(), b.len() as int)));
    encode_utf8_valid_utf8(t);
    encode_utf8_decode_utf8(t);
}

/// Whether `b` holds `expect` from index `start` on.
fn holds_at(b: &[u8], start: usize, expect: &[u8]) -> (r: bool)
    requires
        start + expect@.len() <= b@.len(),
    ensures
        r == (b@.subrange(start as int, start + expect@.len()) == expect@),
{
    let end = b.len();
    let mut i: usize = 0;
    while i < expect.len()
        invariant
            end == b@.len(),
            i <= expect@.len(),
            start + expect@.len() <= b@.len(),
            forall|j: int| 0 <= j < i ==> b@[start + j] == expect@[j],
        decreases expect@.len() - i,
    {
        if b[start + i] != expect[i] {
            assert(b@.subrange(start as int, start + expect@.len())[i as int] != expect@[i as int]);
            return false;
        }
        i += 1;
    }
    assert(b@.subrange(start as int, start + expect@.len()) =~= expect@);
    true
}

/// The bytes of `b` from index `start` up to `end`.
fn copy_range(b: &[u8], start: usize, end: usize) -> (r: Vec<u8>)
    requires
        start <= end <= b@.len(),
    ensures
        r@ == b@.subrange(start as int, end as int),
{
    let mut r: Vec<u8> = Vec::new();
    let mut i: usize = start;
    while i < end
        invariant
            start <= i <= end <= b@.len(),
            r@ == b@.subrange(start as int, i as int),
        decreases end - i,
    {
        r.push(b[i]);
        i += 1;
        assert(r@ =~= b@.subrange(start as int, i as int));
    }
    r
}

fn str_span_exec(b: &[u8], i: usize) -> (r: Option<(usize, usize)>)
    ensures
        match str_span(b@, i as int) {
            Some((s, e)) => r == Some((s as usize, e as usize)),
            None => r is None,
        },
{
    let len = b.len();
    if i >= len {
        return None;
    }
    let m = b[i];
    let (start, n): (usize, usize) = if 0xa0u8 <= m && m <= 0xbfu8 {
        (i + 1, (m - 0xa0u8) as usize)
    } else if m == 0xd9u8 && len - i >= 2 {
        (i + 2, b[i + 1] as usize)
    } else if m == 0xdau8 && len - i >= 3 {
        (i + 3, b[i + 1] as usize * 256 + b[i + 2] as usize)
    } else if m == 0xdbu8 && len - i >= 5 {
        (i + 5, be32_from(b[i + 1], b[i + 2], b[i + 3], b[i + 4]) as usize)
    } else {
        return None;
    };
    if n > len - start {
        return None;
    }
    Some((start, start + n))
}

fn text_span_exec(b: &[u8]) -> (r: Option<(usize, usize)>)
    ensures
        match text_span(b@) {
            Some((s, e)) => r == Some((s as usize, e as usize)),
            None => r is None,
        },
{
    let len = b.len();
    if len < 1 {
        return None;
    }
    let (is_map, j): (bool, usize) = if b[0] == 0x81u8 || b[0] == 0x91u8 {
        (b[0] == 0x81u8, 1)
    } else if len >= 3 && (b[0] == 0xdeu8 || b[0] == 0xdcu8) && b[1] == 0u8 && b[2] == 1u8 {
        (b[0] == 0xdeu8, 3)
    } else if len >= 5 && (b[0] == 0xdfu8 || b[0] == 0xddu8) && b[1] == 0u8 && b[2] == 0u8
        && b[3] == 0u8 && b[4] == 1u8 {
        (b[0] == 0xdfu8, 5)
    } else {
        return None;
    };
    if !is_map {
        return str_span_exec(b, j);
    }
    match str_span_exec(b, j) {
        None => None,
        Some((ks, ke)) => {
            let key: [u8; 4] = [0x74u8, 0x65u8, 0x78u8, 0x74u8];
            assert(key@ == key_bytes());
            if ke - ks == 4 && holds_at(b, ks, key.as_slice()) {
                str_span_exec(b, ke)
            } else {
                proof {
                    if ke - ks != 4 {
                        assert(b@.subrange(ks as int, ke as int).len() != key_bytes().len());
                    }
                }
                None
            }
        },
    }
}

/// An update of a shared text buffer.
#[derive(Debug)]
pub struct TextUpdate {
    text: String,
}

impl View for TextUpdate {
    type V = Seq<char>;

    /// The update's text.
    closed spec fn view(&self) -> Seq<char> {
        self.text@
    }
}

impl PartialEq for TextUpdate {
    fn eq(&self, other: &TextUpdate) -> (r: bool)
        ensures
            r == (self@ == other@),
    {
        self.text == other.text
    }
}

impl vstd::std_specs::cmp::PartialEqSpecImpl for TextUpdate {
    open spec fn obeys_eq_spec() -> bool {
        true
    }

    open spec fn eq_spec(&self, other: &TextUpdate) -> bool {
        self@ == other@
    }
}

impl TextUpdate {
    pub fn new(text: String) -> (r: TextUpdate)
        ensures
            r@ == text@,
    {
        TextUpdate { text }
    }

    pub fn text(&self) -> (r: &String)
        ensures
            r@ == self@,
    {
        &self.text
    }

    /// The frame that carries this update: a big-endian length, then the
    /// payload. `None` exactly when the payload outgrows a frame.
    pub fn encode(&self) -> (r: Option<Vec<u8>>)
        ensures
            r is Some <==> encodable(self@),
            r is Some ==> r->Some_0@ == record_frame(self@),
    {
        let bytes = self.text.as_str().as_bytes();
        proof {
            lemma_header_len(bytes@.len() as nat);
        }
        if bytes.len() > 0xffff_ffffusize - 11 {
            return None;
        }
        let key = "text";
        proof {
            reveal_strlit("text");
            is_ascii_chars_encode_utf8(key@);
            assert(packed_str(key.spec_bytes()) =~= text_key());
        }
        match pack_entry(key, self.text.as_str()) {
            Some(payload) => {
                assert(payload@ =~= payload_of(encode_utf8(self@)));
                Some(encode_frame(payload.as_slice()))
            },
            None => None,
        }
    }

    /// Reads the update that `payload` carries; `None` when it is not the
    /// payload of any update. A payload is a map of one entry keyed by
    /// `text`, or an array of one element, under any of MessagePack's
    /// container headers for one element; each string may use any of the
    /// four string header forms; the text must be valid UTF-8, with nothing
    /// after it. The text written as binary data, further map entries and a
    /// field key given by number are refused.
    pub fn decode(payload: &[u8]) -> (r: Option<TextUpdate>)
        ensures
            match r {
                Some(u) => decoded(payload@) == Some(u@),
                None => decoded(payload@) is None,
            },
    {
        let (s, e) = match text_span_exec(payload) {
            Some(span) => span,
            None => {
                return None;
            },
        };
        if e != payload.len() {
            return None;
        }
        let text_bytes = copy_range(payload, s, e);
        match string_from_utf8(text_bytes) {
            None => None,
            Some(text) => Some(TextUpdate { text }),
        }
    }
}

/// Decoding the payload of an update gives back the update's text.
pub proof fn lemma_round_trip(text: Seq<char>)
    requires
        encodable(text),
    ensures
        decoded(payload_of(encode_utf8(text))) == Some(text),
{
    let e = encode_utf8(text);
    lemma_header_len(e.len());
    assert(spelled(true, 0, 0, shortest_form(e.len()), e) =~= payload_of(e));
    lemma_decodes_every_spelling(text, true, 0, 0, shortest_form(e.len()));
}

} // verus!
