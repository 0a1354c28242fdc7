use vstd::prelude::*;

use crate::dns_error::DnsError;

verus! {

// ---------------------------------------------------------------------------
// Encoding: a domain name, given as the byte string of its text form
// ("www.example.com"), becomes a run of length-prefixed labels ending
// in a zero byte.  No compression pointers are ever written.
// ---------------------------------------------------------------------------

/// The length of the label starting at byte `from`: the distance to
/// the next dot, or to the end of the name.
pub open spec fn label_len_at(s: Seq<u8>, from: int) -> nat
    decreases s.len() - from,
{
    if from < 0 || from >= s.len() {
        0
    } else if s[from] == 46 {
        0
    } else {
        1 + label_len_at(s, from + 1)
    }
}

/// `label_len_at` measures up to the next dot: it stays inside the
/// name, stops exactly on a dot, and skips none.
pub proof fn lemma_label_len_at(s: Seq<u8>, from: int)
    requires
        0 <= from <= s.len(),
    ensures
        from + label_len_at(s, from) <= s.len(),
        from + label_len_at(s, from) < s.len() ==> s[from + label_len_at(s, from)] == 46,
        forall|k: int| from <= k < from + label_len_at(s, from) ==> s[k] != 46,
    decreases s.len() - from,
{
    if from < s.len() && s[from] != 46 {
        lemma_label_len_at(s, from + 1);
    }
}

/// The wire form of the labels of `s` from byte `from` on, including
/// the terminating zero byte.
pub open spec fn name_wire_from(s: Seq<u8>, from: int) -> Seq<u8>
    decreases s.len() - from,
{
    if from < 0 || from > s.len() {
        seq![]
    } else {
        let l = label_len_at(s, from) as int;
        if from + l >= s.len() {
            seq![(s.len() - from) as u8] + s.subrange(from, s.len() as int) + seq![0u8]
        } else {
            seq![l as u8] + s.subrange(from, from + l) + name_wire_from(s, from + l + 1)
        }
    }
}

/// The full wire form of a name.
pub open spec fn name_wire(s: Seq<u8>) -> Seq<u8> {
    name_wire_from(s, 0)
}

/// Every label of `s` from byte `from` on is at most 63 bytes long, so
/// the encoder accepts all of them.
pub open spec fn labels_fit_from(s: Seq<u8>, from: int) -> bool
    decreases s.len() - from,
{
    if from < 0 || from > s.len() {
        true
    } else {
        let l = label_len_at(s, from) as int;
        if from + l >= s.len() {
            s.len() - from <= 63
        } else {
            l <= 63 && labels_fit_from(s, from + l + 1)
        }
    }
}

/// Every label of `s` is at most 63 bytes long.
pub open spec fn labels_fit(s: Seq<u8>) -> bool {
    labels_fit_from(s, 0)
}

/// Every label of `s` from byte `from` on is nonempty: the name is not
/// empty and has no leading, trailing or doubled dot.  Only such names
/// survive a wire round trip, because an empty label would be taken
/// for the terminator.
pub open spec fn labels_nonempty_from(s: Seq<u8>, from: int) -> bool
    decreases s.len() - from,
{
    if from < 0 || from > s.len() {
        true
    } else {
        let l = label_len_at(s, from) as int;
        if from + l >= s.len() {
            s.len() - from >= 1
        } else {
            l >= 1 && labels_nonempty_from(s, from + l + 1)
        }
    }
}

/// Every label of `s` is nonempty.
pub open spec fn labels_nonempty(s: Seq<u8>) -> bool {
    labels_nonempty_from(s, 0)
}

/// The bytes the name encoder emits before it stops, starting with the
/// label at byte `from`: everything up to the first over-long label,
/// or the whole wire form if every label fits.
pub open spec fn write_name_attempt_from(s: Seq<u8>, from: int) -> Seq<u8>
    decreases s.len() - from,
{
    if from < 0 || from > s.len() {
        seq![]
    } else {
        let l = label_len_at(s, from) as int;
        if from + l >= s.len() {
            if s.len() - from <= 63 {
                seq![(s.len() - from) as u8] + s.subrange(from, s.len() as int) + seq![0u8]
            } else {
                seq![]
            }
        } else {
            if l <= 63 {
                seq![l as u8] + s.subrange(from, from + l) + write_name_attempt_from(s, from + l + 1)
            } else {
                seq![]
            }
        }
    }
}

/// The bytes the name encoder emits before it stops.
pub open spec fn write_name_attempt(s: Seq<u8>) -> Seq<u8> {
    write_name_attempt_from(s, 0)
}

/// What the name encoder returns when the label at byte `from` is next
/// and the cursor stands at `pos`: over-long labels are rejected, and
/// the buffer may fill up first.
pub open spec fn write_name_result_from(s: Seq<u8>, from: int, pos: int) -> Result<(), DnsError>
    decreases s.len() - from,
{
    if from < 0 || from > s.len() {
        Ok(())
    } else {
        let l = label_len_at(s, from) as int;
        if from + l >= s.len() {
            if s.len() - from > 63 {
                Err(DnsError::LabelTooLong)
            } else if pos + (s.len() - from) + 2 <= 512 {
                Ok(())
            } else {
                Err(DnsError::EndOfBuffer)
            }
        } else {
            if l > 63 {
                Err(DnsError::LabelTooLong)
            } else if pos + l + 1 <= 512 {
                write_name_result_from(s, from + l + 1, pos + l + 1)
            } else {
                Err(DnsError::EndOfBuffer)
            }
        }
    }
}

/// What the name encoder returns for name `s` with the cursor at `pos`.
pub open spec fn write_name_result(s: Seq<u8>, pos: int) -> Result<(), DnsError> {
    write_name_result_from(s, 0, pos)
}

// ---------------------------------------------------------------------------
// Decoding: the reader renders each label's bytes as UTF-8 decoded
// lossily and then lowercased, and joins labels with dots while
// chasing at most five compression pointers.  DNS labels are byte
// strings: invalid sequences become the replacement character.
// ---------------------------------------------------------------------------

/// Relies on `String::push`: it appends exactly the one character.
/// vstd specifies most `String` operations but not this one.
pub assume_specification[ String::push ](s: &mut String, ch: char)
    ensures
        final(s)@ == old(s)@ + seq![ch],
;

/// What `String::from_utf8_lossy` yields for bytes that are not valid
/// UTF-8.  The exact replacement of invalid sequences is only named:
/// it depends on the bytes alone.
pub uninterp spec fn utf8_lossy_of(bytes: Seq<u8>) -> Seq<char>;

/// The characters `String::from_utf8_lossy` yields: valid UTF-8
/// decodes to exactly its characters, anything else to the named
/// replacement rendering.
pub open spec fn lossy_text(bytes: Seq<u8>) -> Seq<char> {
    if vstd::utf8::valid_utf8(bytes) {
        vstd::utf8::decode_utf8(bytes)
    } else {
        utf8_lossy_of(bytes)
    }
}

/// What `str::to_lowercase` yields for characters beyond ASCII.  The
/// full Unicode mapping is only named: it depends on the characters
/// alone.
pub uninterp spec fn unicode_lower_of(chars: Seq<char>) -> Seq<char>;

/// One ASCII character folded to lowercase.
pub open spec fn ascii_lower_char(c: char) -> char {
    if 'A' <= c && c <= 'Z' {
        (((c as u32) + 32) as char)
    } else {
        c
    }
}

/// A run of ASCII characters folded to lowercase.
pub open spec fn ascii_lower(chars: Seq<char>) -> Seq<char> {
    chars.map_values(|c: char| ascii_lower_char(c))
}

/// The characters `str::to_lowercase` yields: for ASCII, 'A' through
/// 'Z' fold to 'a' through 'z' and the rest stay; beyond ASCII, the
/// named Unicode lowercasing.
pub open spec fn lower_text(chars: Seq<char>) -> Seq<char> {
    if vstd::utf8::is_ascii_chars(chars) {
        ascii_lower(chars)
    } else {
        unicode_lower_of(chars)
    }
}

/// A label's bytes as the decoder renders them: decoded lossily, then
/// lowercased.
#[verifier::opaque]
pub open spec fn label_text(bytes: Seq<u8>) -> Seq<char> {
    lower_text(lossy_text(bytes))
}

/// Relies on `String::from_utf8_lossy`: its documentation says valid
/// UTF-8 is returned unchanged and every invalid sequence becomes the
/// replacement character, a function of the bytes alone.
#[verifier::external_body]
pub(crate) fn utf8_lossy(bytes: &[u8]) -> (r: String)
    ensures
        r@ == lossy_text(bytes@),
        !vstd::utf8::valid_utf8(bytes@) ==> r@ == utf8_lossy_of(bytes@),
{
    String::from_utf8_lossy(bytes).into_owned()
}

/// Relies on `str::to_lowercase`: its documentation says each
/// character is mapped to its Unicode lowercase, a function of the
/// characters alone; on ASCII that is exactly the A-to-Z fold.
#[verifier::external_body]
pub(crate) fn lowercase(s: &str) -> (r: String)
    ensures
        r@ == lower_text(s@),
        !vstd::utf8::is_ascii_chars(s@) ==> r@ == unicode_lower_of(s@),
{
    s.to_lowercase()
}

/// The state a name decode ends in: its result, the characters it
/// appended to the output string, and where it left the cursor.
pub struct NameParse {
    pub outcome: Result<(), DnsError>,
    pub text: Seq<char>,
    pub cursor: int,
}

/// The pointer-chasing name decoder over buffer `buf`, reading at the
/// shadow position `p` with `jumps` pointers already taken.  `cursor`
/// is where the primary cursor currently stands and `jumped` records
/// whether it was already parked after the first pointer; `first` is
/// false once a label has been emitted, so that a dot precedes every
/// later one; `acc` is the text emitted so far.
pub open spec fn read_name_spec(
    buf: Seq<u8>,
    p: int,
    jumps: int,
    cursor: int,
    jumped: bool,
    first: bool,
    acc: Seq<char>,
) -> NameParse
    decreases 6 - jumps, (if p <= 513 { 513 - p } else { 0 }),
{
    if jumps > 5 {
        NameParse { outcome: Err(DnsError::JumpLimitExceeded), text: acc, cursor }
    } else if p < 0 || p >= 512 {
        NameParse { outcome: Err(DnsError::EndOfBuffer), text: acc, cursor }
    } else {
        let b = buf[p];
        if b >= 192 {
            // A compression pointer: on the first one, park the primary
            // cursor just past the two pointer bytes.
            let cursor2 = if !jumped { p + 2 } else { cursor };
            if p + 1 >= 512 {
                NameParse { outcome: Err(DnsError::EndOfBuffer), text: acc, cursor: cursor2 }
            } else {
                let target = (b - 192) * 256 + buf[p + 1];
                read_name_spec(buf, target as int, jumps + 1, cursor2, true, first, acc)
            }
        } else if b == 0 {
            NameParse { outcome: Ok(()), text: acc, cursor: if jumped { cursor } else { p + 1 } }
        } else {
            let acc2 = acc + (if first { seq![] } else { seq!['.'] });
            if p + 1 + b > 512 {
                NameParse { outcome: Err(DnsError::EndOfBuffer), text: acc2, cursor }
            } else {
                read_name_spec(
                    buf,
                    p + 1 + b,
                    jumps,
                    cursor,
                    jumped,
                    false,
                    acc2 + label_text(buf.subrange(p + 1, p + 1 + b)),
                )
            }
        }
    }
}

/// The result of decoding a name at cursor `pos` of buffer `buf`.
pub open spec fn read_name_at(buf: Seq<u8>, pos: int) -> NameParse {
    read_name_spec(buf, pos, 0, pos, false, true, seq![])
}

/// The labels of `s` from byte `from` on as the decoder renders them
/// back from an uncompressed wire form: each label decoded lossily
/// and lowercased, joined by dots.
pub open spec fn name_text_from(s: Seq<u8>, from: int) -> Seq<char>
    decreases s.len() - from,
{
    if from < 0 || from > s.len() {
        seq![]
    } else {
        let l = label_len_at(s, from) as int;
        if from + l >= s.len() {
            label_text(s.subrange(from, s.len() as int))
        } else {
            label_text(s.subrange(from, from + l)) + seq!['.'] + name_text_from(s, from + l + 1)
        }
    }
}

/// The whole name as the decoder renders it back.
pub open spec fn name_text(s: Seq<u8>) -> Seq<char> {
    name_text_from(s, 0)
}

/// A name encode that returned `Ok` emitted the full wire form, which
/// fits the buffer from `pos` on, and every label of the name fits.
pub proof fn lemma_write_name_ok(s: Seq<u8>, from: int, pos: int)
    requires
        0 <= from <= s.len(),
        write_name_result_from(s, from, pos) is Ok,
    ensures
        write_name_attempt_from(s, from) == name_wire_from(s, from),
        pos + name_wire_from(s, from).len() <= 512,
        labels_fit_from(s, from),
    decreases s.len() - from,
{
    let l = label_len_at(s, from) as int;
    lemma_label_len_at(s, from);
    if from + l < s.len() {
        lemma_write_name_ok(s, from + l + 1, pos + l + 1);
    }
}

/// Decoding the wire form of the labels of `s` from byte `from` on,
/// laid down at `q`, succeeds, renders exactly those labels, and ends
/// just past their terminator.  The decoder inspects nothing outside
/// the window, so the rest of the buffer is arbitrary.
#[verifier::rlimit(100)]
#[verifier::spinoff_prover]
proof fn lemma_read_wire_from(
    buf: Seq<u8>,
    s: Seq<u8>,
    from: int,
    q: int,
    jumps: int,
    cursor: int,
    jumped: bool,
    first: bool,
    acc: Seq<char>,
)
    requires
        buf.len() == 512,
        0 <= from <= s.len(),
        0 <= q,
        q + name_wire_from(s, from).len() <= 512,
        buf.subrange(q, q + name_wire_from(s, from).len()) == name_wire_from(s, from),
        labels_fit_from(s, from),
        labels_nonempty_from(s, from),
        0 <= jumps <= 5,
    ensures
        read_name_spec(buf, q, jumps, cursor, jumped, first, acc) == (NameParse {
            outcome: Ok::<(), DnsError>(()),
            text: acc + (if first { seq![] } else { seq!['.'] }) + name_text_from(s, from),
            cursor: if jumped { cursor } else { q + name_wire_from(s, from).len() },
        }),
    decreases s.len() - from,
{
    lemma_label_len_at(s, from);
    let l = label_len_at(s, from) as int;
    let wire = name_wire_from(s, from);
    let win = buf.subrange(q, q + wire.len() as int);
    assert(forall|j: int| q <= j < q + wire.len() ==> #[trigger] buf[j] == wire[j - q]) by {
        assert(forall|j: int| q <= j < q + wire.len() ==> #[trigger] buf[j] == win[j - q]);
    }
    if from + l >= s.len() {
        // the last label: length byte, label bytes, terminator
        let ll = s.len() - from;
        assert(wire == seq![ll as u8] + s.subrange(from, s.len() as int) + seq![0u8]);
        assert(1 <= ll <= 63);
        assert(buf[q] == wire[0]);
        assert(buf[q] == ll as u8);
        let acc2 = acc + (if first { seq![] } else { seq!['.'] });
        assert(buf.subrange(q + 1, q + 1 + ll) =~= s.subrange(from, s.len() as int));
        assert(buf[q + 1 + ll] == wire[1 + ll]);
        assert(buf[q + 1 + ll] == 0);
        assert(read_name_spec(buf, q + 1 + ll, jumps, cursor, jumped, false, acc2 + label_text(
            buf.subrange(q + 1, q + 1 + ll),
        )) == (NameParse {
            outcome: Ok::<(), DnsError>(()),
            text: acc2 + name_text_from(s, from),
            cursor: if jumped { cursor } else { q + 1 + ll + 1 },
        }));
    } else {
        // a label followed by a dot and at least one more label
        assert(wire == seq![l as u8] + s.subrange(from, from + l) + name_wire_from(s, from + l + 1));
        assert(1 <= l <= 63);
        let rest = name_wire_from(s, from + l + 1);
        assert(buf[q] == wire[0]);
        assert(buf[q] == l as u8);
        let acc2 = acc + (if first { seq![] } else { seq!['.'] });
        assert(buf.subrange(q + 1, q + 1 + l) =~= s.subrange(from, from + l));
        let acc3 = acc2 + label_text(s.subrange(from, from + l));
        let q2 = q + 1 + l;
        assert(buf.subrange(q2, q2 + rest.len() as int) =~= rest);
        lemma_read_wire_from(buf, s, from + l + 1, q2, jumps, cursor, jumped, false, acc3);
        // the rendered rest glues back into the rendered whole
        assert(s[from + l] == 46);
        assert(acc3 + seq!['.'] + name_text_from(s, from + l + 1) =~= acc2 + name_text_from(
            s,
            from,
        ));
        assert(read_name_spec(buf, q, jumps, cursor, jumped, first, acc) == read_name_spec(
            buf,
            q2,
            jumps,
            cursor,
            jumped,
            false,
            acc3,
        ));
    }
}

/// Law: a name written uncompressed at `pos` reads back as its labels
/// decoded lossily and lowercased, joined by dots, leaving the cursor
/// just past the terminator — for any name whose labels are nonempty
/// and at most 63 bytes, whatever else the buffer holds.
pub proof fn lemma_name_round_trip(buf: Seq<u8>, pos: int, s: Seq<u8>)
    requires
        buf.len() == 512,
        0 <= pos,
        pos + name_wire(s).len() <= 512,
        buf.subrange(pos, pos + name_wire(s).len()) == name_wire(s),
        labels_fit(s),
        labels_nonempty(s),
    ensures
        read_name_at(buf, pos) == (NameParse {
            outcome: Ok::<(), DnsError>(()),
            text: name_text(s),
            cursor: pos + name_wire(s).len(),
        }),
{
    lemma_read_wire_from(buf, s, 0, pos, 0, pos, false, true, seq![]);
    let empty: Seq<char> = seq![];
    assert(empty + empty + name_text_from(s, 0) =~= name_text(s));
}

/// An all-ASCII label renders as its own bytes with 'A' through 'Z'
/// folded to lowercase: ASCII bytes are valid UTF-8 and decode to
/// themselves.
proof fn lemma_label_text_ascii(b: Seq<u8>)
    requires
        forall|i: int| 0 <= i < b.len() ==> b[i] < 128,
    ensures
        label_text(b) == Seq::new(b.len(), |i: int| ascii_lower_char(b[i] as char)),
{
    reveal(label_text);
    let chars = Seq::new(b.len(), |i: int| b[i] as char);
    assert(vstd::utf8::is_ascii_chars(chars));
    vstd::utf8::is_ascii_chars_encode_utf8(chars);
    assert(vstd::utf8::encode_utf8(chars) =~= b);
    vstd::utf8::encode_utf8_valid_utf8(chars);
    vstd::utf8::encode_utf8_decode_utf8(chars);
    assert(lossy_text(b) == chars);
    assert(lower_text(chars) =~= Seq::new(b.len(), |i: int| ascii_lower_char(b[i] as char)));
}

/// Law: an all-ASCII name renders back as plain ASCII lowercasing,
/// byte for byte — dots stay dots and 'A' through 'Z' fold.
pub proof fn lemma_name_text_ascii(s: Seq<u8>)
    requires
        forall|i: int| 0 <= i < s.len() ==> s[i] < 128,
    ensures
        name_text(s) == Seq::new(s.len(), |i: int| ascii_lower_char(s[i] as char)),
{
    lemma_name_text_ascii_from(s, 0);
    assert(name_text(s) =~= Seq::new(s.len(), |i: int| ascii_lower_char(s[i] as char)));
}

/// The ASCII rendering, label by label from byte `from` on.
proof fn lemma_name_text_ascii_from(s: Seq<u8>, from: int)
    requires
        0 <= from <= s.len(),
        forall|i: int| 0 <= i < s.len() ==> s[i] < 128,
    ensures
        name_text_from(s, from) == Seq::new(
            (s.len() - from) as nat,
            |i: int| ascii_lower_char(s[from + i] as char),
        ),
    decreases s.len() - from,
{
    lemma_label_len_at(s, from);
    let l = label_len_at(s, from) as int;
    if from + l >= s.len() {
        lemma_label_text_ascii(s.subrange(from, s.len() as int));
        assert(name_text_from(s, from) =~= Seq::new(
            (s.len() - from) as nat,
            |i: int| ascii_lower_char(s[from + i] as char),
        ));
    } else {
        lemma_label_text_ascii(s.subrange(from, from + l));
        lemma_name_text_ascii_from(s, from + l + 1);
        assert(s[from + l] == 46);
        assert(ascii_lower_char(46u8 as char) == '.');
        assert(name_text_from(s, from) =~= Seq::new(
            (s.len() - from) as nat,
            |i: int| ascii_lower_char(s[from + i] as char),
        ));
    }
}

/// Law: a compression pointer that points at itself exhausts the jump
/// limit: decoding a name there fails with the jump-limit error.
pub proof fn lemma_self_pointer_jump_limit(buf: Seq<u8>, p: int)
    requires
        buf.len() == 512,
        0 <= p,
        p + 1 < 512,
        buf[p] >= 192,
        (buf[p] - 192) * 256 + buf[p + 1] == p,
    ensures
        read_name_at(buf, p).outcome == Err::<(), DnsError>(DnsError::JumpLimitExceeded),
{
    lemma_self_pointer_spins(buf, p, 0, p, false, true, seq![]);
}

/// Each jump through a self-referential pointer returns to the same
/// place, so the decode ends at the jump limit whatever state it is in.
proof fn lemma_self_pointer_spins(
    buf: Seq<u8>,
    p: int,
    jumps: int,
    cursor: int,
    jumped: bool,
    first: bool,
    acc: Seq<char>,
)
    requires
        buf.len() == 512,
        0 <= p,
        p + 1 < 512,
        buf[p] >= 192,
        (buf[p] - 192) * 256 + buf[p + 1] == p,
        0 <= jumps,
    ensures
        read_name_spec(buf, p, jumps, cursor, jumped, first, acc).outcome == Err::<(), DnsError>(
            DnsError::JumpLimitExceeded,
        ),
    decreases 6 - jumps, 0int,
{
    if jumps > 5 {
    } else {
        let cursor2 = if !jumped { p + 2 } else { cursor };
        lemma_self_pointer_spins(buf, p, jumps + 1, cursor2, true, first, acc);
    }
}

} // verus!
