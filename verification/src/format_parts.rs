//! Tokenizer of `format!`-style strings, and the variables such a string
//! captures by name.
use vstd::prelude::*;
use vstd::string::StringSliceAdditionalSpecFns;
use vstd::utf8::{
    decode_utf8,
    encode_utf8,
    encode_utf8_decode_utf8,
    encode_utf8_valid_utf8,
    is_char_boundary,
    is_char_boundary_iff_not_is_continuation_byte,
    is_char_boundary_start_end_of_seq,
    is_continuation_byte,
    length_of_first_scalar,
    pop_first_scalar,
    valid_first_scalar,
    valid_utf8,
    valid_utf8_split,
};

use crate::order::bytes_equal;

verus! {

/// `{`
pub const OPEN_BRACE: u8 = 0x7b;

/// `}`
pub const CLOSE_BRACE: u8 = 0x7d;

/// `:`
pub const COLON: u8 = 0x3a;

/// Parts of a format string, yielded by `FormatIter`.
#[derive(Debug, Clone, PartialEq, Eq)]
pub enum FormatPart<'a> {
    /// Raw text between format specifiers.
    RawString(&'a str),
    /// An escaped brace: `{{` or `}}`.
    EscapedBrace(&'a str),
    /// A variable reference without format spec: `{ident}`.
    /// The slice is the variable name (may be empty for positional `{}`).
    VarRef(&'a str),
    /// A variable reference with format spec: `{ident:spec}`.
    /// First slice is the variable name, second is the spec including `:`.
    VarRefFormat(&'a str, &'a str),
}

/// Abstract form of a `FormatPart`: the UTF-8 bytes of its slices.
pub enum PartView {
    RawString(Seq<u8>),
    EscapedBrace(Seq<u8>),
    VarRef(Seq<u8>),
    VarRefFormat(Seq<u8>, Seq<u8>),
}

impl<'a> View for FormatPart<'a> {
    type V = PartView;

    open spec fn view(&self) -> PartView {
        match *self {
            FormatPart::RawString(s) => PartView::RawString(s.spec_bytes()),
            FormatPart::EscapedBrace(s) => PartView::EscapedBrace(s.spec_bytes()),
            FormatPart::VarRef(s) => PartView::VarRef(s.spec_bytes()),
            FormatPart::VarRefFormat(n, f) => PartView::VarRefFormat(n.spec_bytes(), f.spec_bytes()),
        }
    }
}

/// The views of a sequence of parts.
pub open spec fn part_views<'a>(parts: Seq<FormatPart<'a>>) -> Seq<PartView> {
    parts.map_values(|p: FormatPart<'a>| p@)
}

/// End of the raw text that starts at `i`: the first brace at or after `i`, or the end.
pub open spec fn raw_end(b: Seq<u8>, i: int) -> int
    decreases b.len() - i,
{
    if i < 0 || i >= b.len() || b[i] == OPEN_BRACE || b[i] == CLOSE_BRACE {
        i
    } else {
        raw_end(b, i + 1)
    }
}

/// The first closing brace at or after `i`, or the end.
pub open spec fn close_at_or_after(b: Seq<u8>, i: int) -> int
    decreases b.len() - i,
{
    if i < 0 || i >= b.len() || b[i] == CLOSE_BRACE {
        i
    } else {
        close_at_or_after(b, i + 1)
    }
}

/// The first colon in `b[start..end]`, if any.
pub open spec fn first_colon(b: Seq<u8>, start: int, end: int) -> Option<int>
    decreases end - start,
{
    if end <= start {
        None
    } else {
        match first_colon(b, start, end - 1) {
            Some(c) => Some(c),
            None => if b[end - 1] == COLON {
                Some(end - 1)
            } else {
                None
            },
        }
    }
}

/// The part that starts at `pos` (which is before the end of `b`).
pub open spec fn scan_part(b: Seq<u8>, pos: int) -> PartView {
    if b[pos] == OPEN_BRACE {
        if pos + 1 < b.len() && b[pos + 1] == OPEN_BRACE {
            PartView::EscapedBrace(b.subrange(pos, pos + 2))
        } else {
            let end = close_at_or_after(b, pos + 1);
            match first_colon(b, pos + 1, end) {
                Some(c) => PartView::VarRefFormat(b.subrange(pos + 1, c), b.subrange(c, end)),
                None => PartView::VarRef(b.subrange(pos + 1, end)),
            }
        }
    } else if b[pos] == CLOSE_BRACE {
        if pos + 1 < b.len() && b[pos + 1] == CLOSE_BRACE {
            PartView::EscapedBrace(b.subrange(pos, pos + 2))
        } else {
            PartView::RawString(b.subrange(pos, pos + 1))
        }
    } else {
        PartView::RawString(b.subrange(pos, raw_end(b, pos)))
    }
}

/// Where the part that starts at `pos` ends: past its closing brace, if it has one.
pub open spec fn scan_next(b: Seq<u8>, pos: int) -> int {
    if b[pos] == OPEN_BRACE {
        if pos + 1 < b.len() && b[pos + 1] == OPEN_BRACE {
            pos + 2
        } else {
            let end = close_at_or_after(b, pos + 1);
            if end < b.len() {
                end + 1
            } else {
                end
            }
        }
    } else if b[pos] == CLOSE_BRACE {
        if pos + 1 < b.len() && b[pos + 1] == CLOSE_BRACE {
            pos + 2
        } else {
            pos + 1
        }
    } else {
        raw_end(b, pos)
    }
}

/// The parts of `b` from `pos` on.
pub open spec fn parts_from(b: Seq<u8>, pos: int) -> Seq<PartView>
    decreases b.len() - pos,
{
    if 0 <= pos < b.len() && pos < scan_next(b, pos) <= b.len() {
        seq![scan_part(b, pos)] + parts_from(b, scan_next(b, pos))
    } else {
        Seq::empty()
    }
}

/// The parts of a format string.
pub open spec fn format_parts(b: Seq<u8>) -> Seq<PartView> {
    parts_from(b, 0)
}

proof fn lemma_raw_end(b: Seq<u8>, i: int)
    requires
        0 <= i <= b.len(),
    ensures
        i <= raw_end(b, i) <= b.len(),
        raw_end(b, i) < b.len() ==> b[raw_end(b, i)] == OPEN_BRACE || b[raw_end(b, i)]
            == CLOSE_BRACE,
    decreases b.len() - i,
{
    if i < b.len() && b[i] != OPEN_BRACE && b[i] != CLOSE_BRACE {
        lemma_raw_end(b, i + 1);
    }
}

proof fn lemma_close_at_or_after(b: Seq<u8>, i: int)
    requires
        0 <= i <= b.len(),
    ensures
        i <= close_at_or_after(b, i) <= b.len(),
        close_at_or_after(b, i) < b.len() ==> b[close_at_or_after(b, i)] == CLOSE_BRACE,
    decreases b.len() - i,
{
    if i < b.len() && b[i] != CLOSE_BRACE {
        lemma_close_at_or_after(b, i + 1);
    }
}

proof fn lemma_first_colon(b: Seq<u8>, start: int, end: int)
    requires
        0 <= start <= end <= b.len(),
    ensures
        first_colon(b, start, end) matches Some(c) ==> start <= c < end && b[c] == COLON,
        first_colon(b, start, end) matches Some(c) ==> forall|i: int|
            start <= i < c ==> #[trigger] b[i] != COLON,
        first_colon(b, start, end) is None ==> forall|i: int| start <= i < end ==> #[trigger] b[i] != COLON,
    decreases end - start,
{
    if end > start {
        lemma_first_colon(b, start, end - 1);
    }
}

/// Each part starts where the previous one ended and ends further on.
proof fn lemma_scan_advances(b: Seq<u8>, pos: int)
    requires
        0 <= pos < b.len(),
    ensures
        pos < scan_next(b, pos) <= b.len(),
{
    lemma_raw_end(b, pos);
    if pos + 1 <= b.len() {
        lemma_close_at_or_after(b, pos + 1);
    }
}

/// Positions of a valid UTF-8 string: a boundary is the end or a byte that does
/// not continue a character.
proof fn lemma_boundary_iff(x: Seq<u8>, i: int)
    requires
        valid_utf8(x),
        0 <= i <= x.len(),
    ensures
        is_char_boundary(x, i) == (i == x.len() || !is_continuation_byte(x[i])),
{
    if i == x.len() {
        is_char_boundary_start_end_of_seq(x);
    } else {
        is_char_boundary_iff_not_is_continuation_byte(x, i);
    }
}

/// The position after an ASCII byte of a valid UTF-8 string is a boundary.
proof fn lemma_boundary_after_ascii(x: Seq<u8>, i: int)
    requires
        valid_utf8(x),
        0 <= i < x.len(),
        x[i] < 0x80,
    ensures
        is_char_boundary(x, i + 1),
{
    lemma_boundary_iff(x, i);
    lemma_boundary_iff(x, i + 1);
    if i + 1 < x.len() {
        valid_utf8_split(x, i);
        let y = x.subrange(i, x.len() as int);
        assert(y[0] == x[i]);
        assert(valid_first_scalar(y));
        assert(length_of_first_scalar(y) == 1);
        let z = pop_first_scalar(y);
        assert(z =~= x.subrange(i + 1, x.len() as int));
        assert(valid_utf8(z));
        assert(z.len() > 0);
        assert(valid_first_scalar(z));
        assert(z[0] == x[i + 1]);
    }
}

/// A boundary of a string is a boundary of each prefix that reaches it.
proof fn lemma_boundary_of_prefix(x: Seq<u8>, start: int, end: int)
    requires
        valid_utf8(x),
        0 <= start <= end <= x.len(),
        is_char_boundary(x, start),
        is_char_boundary(x, end),
    ensures
        valid_utf8(x.subrange(0, end)),
        is_char_boundary(x.subrange(0, end), start),
{
    valid_utf8_split(x, end);
    lemma_boundary_iff(x, start);
    lemma_boundary_iff(x.subrange(0, end), start);
}

/// The bytes `start..end` of `s`, both character boundaries.
fn substr<'b>(s: &'b str, start: usize, end: usize) -> (r: &'b str)
    requires
        start <= end <= s.spec_bytes().len(),
        is_char_boundary(s.spec_bytes(), start as int),
        is_char_boundary(s.spec_bytes(), end as int),
    ensures
        r.spec_bytes() == s.spec_bytes().subrange(start as int, end as int),
{
    proof {
        encode_utf8_valid_utf8(s@);
        lemma_boundary_of_prefix(s.spec_bytes(), start as int, end as int);
    }
    let (left, _) = s.split_at(end);
    let (_, mid) = left.split_at(start);
    proof {
        assert(mid.spec_bytes() =~= s.spec_bytes().subrange(start as int, end as int));
    }
    mid
}

/// Zero-allocation iterator over parts of a `format!`-style string.
///
/// All returned string slices reference the input.
pub struct FormatIter<'a> {
    input: &'a str,
    pos: usize,
}

impl<'a> FormatIter<'a> {
    #[verifier::type_invariant]
    spec fn inv(self) -> bool {
        &&& self.pos <= self.input.spec_bytes().len()
        &&& is_char_boundary(self.input.spec_bytes(), self.pos as int)
    }

    /// The UTF-8 bytes of the input.
    pub closed spec fn bytes(self) -> Seq<u8> {
        self.input.spec_bytes()
    }

    /// The position of the next part in the input.
    pub closed spec fn position(self) -> int {
        self.pos as int
    }

    /// An iterator over the parts of `input`.
    pub fn new(input: &'a str) -> (r: Self)
        ensures
            r.bytes() == input.spec_bytes(),
            r.position() == 0,
    {
        proof {
            encode_utf8_valid_utf8(input@);
            is_char_boundary_start_end_of_seq(input.spec_bytes());
        }
        FormatIter { input, pos: 0 }
    }

    /// Returns the next part, or `None` at the end of the input.
    pub fn next(&mut self) -> (r: Option<FormatPart<'a>>)
        ensures
            final(self).bytes() == old(self).bytes(),
            0 <= old(self).position() <= old(self).bytes().len(),
            0 <= final(self).position() <= final(self).bytes().len(),
            old(self).position() == old(self).bytes().len() ==> r is None && final(self).position()
                == old(self).position(),
            old(self).position() < old(self).bytes().len() ==> (r matches Some(p) && p@ == scan_part(
                old(self).bytes(),
                old(self).position(),
            ) && final(self).position() == scan_next(old(self).bytes(), old(self).position())),
    {
        proof {
            use_type_invariant(&*self);
        }
        let input = self.input;
        let bytes = input.as_bytes();
        let ghost b = bytes@;
        proof {
            encode_utf8_valid_utf8(input@);
        }
        let len = bytes.len();
        let mut pos = self.pos;
        if pos >= len {
            return None;
        }
        let start = pos;
        if bytes[pos] == OPEN_BRACE {
            pos = pos + 1;
            proof {
                lemma_boundary_after_ascii(b, start as int);
            }
            if pos < len && bytes[pos] == OPEN_BRACE {
                proof {
                    lemma_boundary_after_ascii(b, pos as int);
                }
                pos = pos + 1;
                self.pos = pos;
                return Some(FormatPart::EscapedBrace(substr(input, start, pos)));
            }
            let content_start = pos;
            let mut colon_pos: Option<usize> = None;
            while pos < len && bytes[pos] != CLOSE_BRACE
                invariant
                    b == bytes@,
                    len == b.len(),
                    content_start <= pos <= len,
                    close_at_or_after(b, content_start as int) == close_at_or_after(b, pos as int),
                    match colon_pos {
                        Some(c) => first_colon(b, content_start as int, pos as int) == Some(
                            c as int,
                        ),
                        None => first_colon(b, content_start as int, pos as int) is None,
                    },
                decreases len - pos,
            {
                if bytes[pos] == COLON && colon_pos.is_none() {
                    colon_pos = Some(pos);
                }
                pos = pos + 1;
            }
            let content_end = pos;
            proof {
                lemma_boundary_iff(b, content_end as int);
                lemma_first_colon(b, content_start as int, content_end as int);
                if let Some(c) = colon_pos {
                    lemma_boundary_iff(b, c as int);
                }
            }
            if pos < len {
                proof {
                    lemma_boundary_after_ascii(b, pos as int);
                }
                pos = pos + 1;
            }
            self.pos = pos;
            match colon_pos {
                Some(cp) => Some(
                    FormatPart::VarRefFormat(
                        substr(input, content_start, cp),
                        substr(input, cp, content_end),
                    ),
                ),
                None => Some(FormatPart::VarRef(substr(input, content_start, content_end))),
            }
        } else if bytes[pos] == CLOSE_BRACE {
            proof {
                lemma_boundary_after_ascii(b, start as int);
            }
            pos = pos + 1;
            if pos < len && bytes[pos] == CLOSE_BRACE {
                proof {
                    lemma_boundary_after_ascii(b, pos as int);
                }
                pos = pos + 1;
                self.pos = pos;
                return Some(FormatPart::EscapedBrace(substr(input, start, pos)));
            }
            self.pos = pos;
            Some(FormatPart::RawString(substr(input, start, pos)))
        } else {
            while pos < len && bytes[pos] != OPEN_BRACE && bytes[pos] != CLOSE_BRACE
                invariant
                    b == bytes@,
                    len == b.len(),
                    start <= pos <= len,
                    raw_end(b, start as int) == raw_end(b, pos as int),
                decreases len - pos,
            {
                pos = pos + 1;
            }
            proof {
                lemma_boundary_iff(b, pos as int);
            }
            self.pos = pos;
            Some(FormatPart::RawString(substr(input, start, pos)))
        }
    }

    /// All the remaining parts, in order.
    pub fn collect(self) -> (r: Vec<FormatPart<'a>>)
        ensures
            part_views(r@) == parts_from(self.bytes(), self.position()),
    {
        let ghost b = self.bytes();
        let ghost start = self.position();
        let mut iter = self;
        let mut out: Vec<FormatPart<'a>> = Vec::new();
        proof {
            use_type_invariant(&iter);
            assert(part_views(out@) =~= Seq::<PartView>::empty());
        }
        loop
            invariant
                b == self.bytes(),
                start == self.position(),
                iter.bytes() == b,
                0 <= iter.position() <= b.len(),
                part_views(out@) + parts_from(b, iter.position()) == parts_from(b, start),
            decreases b.len() - iter.position(),
        {
            let ghost before = iter.position();
            let ghost prev = out@;
            match iter.next() {
                Some(p) => {
                    out.push(p);
                    proof {
                        lemma_scan_advances(b, before);
                        assert(part_views(out@) =~= part_views(prev).push(p@));
                        assert(part_views(out@) + parts_from(b, iter.position()) =~= part_views(
                            prev,
                        ) + parts_from(b, before));
                    }
                },
                None => {
                    proof {
                        assert(parts_from(b, before) =~= Seq::<PartView>::empty());
                        assert(part_views(out@) + parts_from(b, before) =~= part_views(out@));
                    }
                    return out;
                },
            }
        }
    }
}

/// Name for what `char::is_alphabetic` returns on `c`: whether `c` has the
/// Unicode `Alphabetic` property.
pub uninterp spec fn unicode_alphabetic(c: char) -> bool;

/// Name for what `char::is_alphanumeric` returns on `c`: whether `c` has the
/// Unicode `Alphabetic` property or is numeric.
pub uninterp spec fn unicode_alphanumeric(c: char) -> bool;

/// Calls `char::is_alphabetic`. The contract only names the result, which
/// depends on `c` alone (through Unicode's tables).
#[verifier::external_body]
fn char_is_alphabetic(c: char) -> (r: bool)
    ensures
        r == unicode_alphabetic(c),
{
    c.is_alphabetic()
}

/// Calls `char::is_alphanumeric`. The contract only names the result, which
/// depends on `c` alone (through Unicode's tables).
#[verifier::external_body]
fn char_is_alphanumeric(c: char) -> (r: bool)
    ensures
        r == unicode_alphanumeric(c),
{
    c.is_alphanumeric()
}

/// A character that may start a captured identifier.
pub open spec fn ident_start(c: char) -> bool {
    unicode_alphabetic(c) || c == '_'
}

/// A character that may continue a captured identifier.
pub open spec fn ident_continue(c: char) -> bool {
    unicode_alphanumeric(c) || c == '_'
}

/// `cs` is an identifier that a format string may capture: it starts with an
/// alphabetic character or `_` and goes on with alphanumeric characters or `_`.
pub open spec fn captured_ident(cs: Seq<char>) -> bool {
    &&& cs.len() > 0
    &&& ident_start(cs[0])
    &&& forall|i: int| 1 <= i < cs.len() ==> ident_continue(#[trigger] cs[i])
}

/// `cs` is a captured identifier, given for each of its characters whether it
/// is alphabetic (`alphabetic[i]`) and whether it is alphanumeric
/// (`alphanumeric[i]`).
pub open spec fn captured_ident_given(cs: Seq<char>, alphabetic: Seq<bool>, alphanumeric: Seq<bool>) -> bool {
    &&& cs.len() > 0
    &&& (alphabetic[0] || cs[0] == '_')
    &&& forall|i: int| 1 <= i < cs.len() ==> (#[trigger] alphanumeric[i] || cs[i] == '_')
}

/// Whether `name` is a captured identifier, given for each of its characters
/// whether it is alphabetic and whether it is alphanumeric: the first character
/// must be alphabetic or `_`, the others alphanumeric or `_`.
pub fn is_captured_ident_given(name: &str, alphabetic: &Vec<bool>, alphanumeric: &Vec<bool>) -> (r: bool)
    requires
        alphabetic@.len() == name@.len(),
        alphanumeric@.len() == name@.len(),
    ensures
        r == captured_ident_given(name@, alphabetic@, alphanumeric@),
{
    broadcast use vstd::string::group_string_axioms;

    let n = alphabetic.len();
    let mut first = true;
    let mut i: usize = 0;
    for c in it: name.chars()
        invariant
            it.seq() == name@,
            n == name@.len(),
            alphabetic@.len() == name@.len(),
            alphanumeric@.len() == name@.len(),
            i == it.index(),
            first == (it.index() == 0),
            it.index() > 0 ==> (alphabetic@[0] || name@[0] == '_'),
            forall|j: int| 1 <= j < it.index() ==> (#[trigger] alphanumeric@[j] || name@[j] == '_'),
    {
        if first {
            if !(alphabetic[i] || c == '_') {
                return false;
            }
            first = false;
        } else if !(alphanumeric[i] || c == '_') {
            return false;
        }
        i = i + 1;
    }
    !first
}

/// Returns true if `name` is a valid captured identifier for formatting.
///
/// Must start with an alphabetic character or `_`, and contain only
/// alphanumeric characters or `_`. Empty strings and numeric-only
/// names (positional args) return false.
pub fn is_captured_ident(name: &str) -> (r: bool)
    ensures
        r == captured_ident(name@),
{
    broadcast use vstd::string::group_string_axioms;

    let mut alphabetic: Vec<bool> = Vec::new();
    let mut alphanumeric: Vec<bool> = Vec::new();
    for c in it: name.chars()
        invariant
            it.seq() == name@,
            alphabetic@.len() == it.index(),
            alphanumeric@.len() == it.index(),
            forall|j: int| 0 <= j < it.index() ==> #[trigger] alphabetic@[j] == unicode_alphabetic(name@[j]),
            forall|j: int| 0 <= j < it.index() ==> #[trigger] alphanumeric@[j] == unicode_alphanumeric(name@[j]),
    {
        alphabetic.push(char_is_alphabetic(c));
        alphanumeric.push(char_is_alphanumeric(c));
    }
    let r = is_captured_ident_given(name, &alphabetic, &alphanumeric);
    proof {
        assert(captured_ident_given(name@, alphabetic@, alphanumeric@) == captured_ident(name@)) by {
            if captured_ident_given(name@, alphabetic@, alphanumeric@) {
                assert forall|i: int| 1 <= i < name@.len() implies ident_continue(#[trigger] name@[i]) by {
                    assert(alphanumeric@[i] || name@[i] == '_');
                }
            }
            if captured_ident(name@) {
                assert forall|i: int| 1 <= i < name@.len() implies (#[trigger] alphanumeric@[i] || name@[i] == '_') by {
                    assert(ident_continue(name@[i]));
                }
            }
        }
    }
    r
}

/// The text of each string.
pub open spec fn string_views(v: Seq<String>) -> Seq<Seq<char>> {
    v.map_values(|s: String| s@)
}

/// The names that the parts capture, without repetition, in the order in which
/// they first occur: plain `{ident}` references only (no format spec), whose name
/// is a captured identifier.
pub open spec fn captured_names(parts: Seq<PartView>) -> Seq<Seq<char>>
    decreases parts.len(),
{
    if parts.len() == 0 {
        Seq::empty()
    } else {
        let prev = captured_names(parts.drop_last());
        match parts.last() {
            PartView::VarRef(n) => {
                let name = decode_utf8(n);
                if captured_ident(name) && !prev.contains(name) {
                    prev.push(name)
                } else {
                    prev
                }
            },
            _ => prev,
        }
    }
}

/// Whether `vars` holds a string equal to `name`.
fn contains_name(vars: &Vec<String>, name: &str) -> (r: bool)
    ensures
        r == string_views(vars@).contains(name@),
{
    broadcast use encode_utf8_decode_utf8;

    let mut i: usize = 0;
    while i < vars.len()
        invariant
            i <= vars@.len(),
            forall|j: int| 0 <= j < i ==> vars@[j]@ != name@,
        decreases vars@.len() - i,
    {
        let v: &str = vars[i].as_str();
        if bytes_equal(v.as_bytes(), name.as_bytes()) {
            proof {
                encode_utf8_decode_utf8(v@);
                encode_utf8_decode_utf8(name@);
                assert(v.spec_bytes() == encode_utf8(v@));
                assert(name.spec_bytes() == encode_utf8(name@));
                assert(string_views(vars@)[i as int] == name@);
            }
            return true;
        }
        proof {
            encode_utf8_decode_utf8(v@);
            encode_utf8_decode_utf8(name@);
            assert(v.spec_bytes() == encode_utf8(v@));
            assert(name.spec_bytes() == encode_utf8(name@));
        }
        i = i + 1;
    }
    proof {
        if string_views(vars@).contains(name@) {
            let j = choose|j: int| 0 <= j < string_views(vars@).len() && string_views(vars@)[j] == name@;
            assert(vars@[j]@ == name@);
        }
    }
    false
}

/// Extract captured variable names from a format string.
///
/// Only extracts plain `{ident}` captures (no format spec). Variables with
/// format specs like `{ident:?}` or `{ident:>10}` are left as-is: they may
/// use `Debug` or other traits that the stringify conversion does not handle.
pub fn extract_captured_variables(fmt: &str) -> (vars: Vec<String>)
    ensures
        string_views(vars@) == captured_names(format_parts(fmt.spec_bytes())),
{
    broadcast use encode_utf8_decode_utf8;

    let mut vars: Vec<String> = Vec::new();
    let mut iter = FormatIter::new(fmt);
    let ghost b = fmt.spec_bytes();
    let ghost mut done: Seq<PartView> = Seq::empty();
    proof {
        use_type_invariant(&iter);
        assert(done + parts_from(b, 0) =~= parts_from(b, 0));
        assert(string_views(vars@) =~= Seq::<Seq<char>>::empty());
    }
    loop
        invariant
            b == fmt.spec_bytes(),
            iter.bytes() == b,
            0 <= iter.position() <= b.len(),
            done + parts_from(b, iter.position()) == format_parts(b),
            string_views(vars@) == captured_names(done),
        decreases b.len() - iter.position(),
    {
        let ghost before = iter.position();
        match iter.next() {
            None => {
                proof {
                    assert(parts_from(b, before) =~= Seq::<PartView>::empty());
                    assert(done + parts_from(b, before) =~= done);
                }
                return vars;
            },
            Some(part) => {
                proof {
                    lemma_scan_advances(b, before);
                    assert(done.push(part@) + parts_from(b, iter.position()) =~= done + parts_from(
                        b,
                        before,
                    ));
                }
                let ghost prev_done = done;
                proof {
                    done = done.push(part@);
                    assert(done.drop_last() =~= prev_done);
                    assert(done.last() == part@);
                }
                let ghost prev_vars = vars@;
                match part {
                    FormatPart::VarRef(name) => {
                        proof {
                            encode_utf8_valid_utf8(name@);
                            encode_utf8_decode_utf8(name@);
                            assert(name.spec_bytes() == encode_utf8(name@));
                            assert(decode_utf8(name.spec_bytes()) == name@);
                            assert(part@ == PartView::VarRef(name.spec_bytes()));
                        }
                        if is_captured_ident(name) && !contains_name(&vars, name) {
                            vars.push(name.to_owned());
                            proof {
                                assert(string_views(vars@) =~= string_views(prev_vars).push(name@));
                            }
                        }
                    },
                    _ => {},
                }
            },
        }
    }
}

/// The text of the input that a part stands for.
pub open spec fn part_source(p: PartView) -> Seq<u8> {
    match p {
        PartView::RawString(s) => s,
        PartView::EscapedBrace(s) => s,
        PartView::VarRef(n) => seq![OPEN_BRACE] + n + seq![CLOSE_BRACE],
        PartView::VarRefFormat(n, f) => seq![OPEN_BRACE] + n + f + seq![CLOSE_BRACE],
    }
}

/// The texts of the parts, one after the other.
pub open spec fn sources(parts: Seq<PartView>) -> Seq<u8>
    decreases parts.len(),
{
    if parts.len() == 0 {
        Seq::empty()
    } else {
        part_source(parts[0]) + sources(parts.drop_first())
    }
}

/// The part at `pos` is a reference that the input ends before closing.
pub open spec fn unclosed_reference_at(b: Seq<u8>, pos: int) -> bool {
    &&& b[pos] == OPEN_BRACE
    &&& !(pos + 1 < b.len() && b[pos + 1] == OPEN_BRACE)
    &&& close_at_or_after(b, pos + 1) == b.len()
}

/// The last part of `b` from `pos` on is a reference that the input ends before closing.
pub open spec fn ends_in_unclosed_reference(b: Seq<u8>, pos: int) -> bool
    decreases b.len() - pos,
{
    if 0 <= pos < b.len() && pos < scan_next(b, pos) <= b.len() {
        if scan_next(b, pos) == b.len() {
            unclosed_reference_at(b, pos)
        } else {
            ends_in_unclosed_reference(b, scan_next(b, pos))
        }
    } else {
        false
    }
}

proof fn lemma_part_source(b: Seq<u8>, pos: int)
    requires
        0 <= pos < b.len(),
    ensures
        part_source(scan_part(b, pos)) == if unclosed_reference_at(b, pos) {
            b.subrange(pos, scan_next(b, pos)).push(CLOSE_BRACE)
        } else {
            b.subrange(pos, scan_next(b, pos))
        },
        unclosed_reference_at(b, pos) ==> scan_next(b, pos) == b.len(),
{
    lemma_scan_advances(b, pos);
    lemma_raw_end(b, pos);
    if b[pos] == OPEN_BRACE && !(pos + 1 < b.len() && b[pos + 1] == OPEN_BRACE) {
        let end = close_at_or_after(b, pos + 1);
        lemma_close_at_or_after(b, pos + 1);
        lemma_first_colon(b, pos + 1, end);
        match first_colon(b, pos + 1, end) {
            Some(c) => {
                if end < b.len() {
                    assert(seq![OPEN_BRACE] + b.subrange(pos + 1, c) + b.subrange(c, end) + seq![
                        CLOSE_BRACE,
                    ] =~= b.subrange(pos, end + 1));
                } else {
                    assert(seq![OPEN_BRACE] + b.subrange(pos + 1, c) + b.subrange(c, end) + seq![
                        CLOSE_BRACE,
                    ] =~= b.subrange(pos, end).push(CLOSE_BRACE));
                }
            },
            None => {
                if end < b.len() {
                    assert(seq![OPEN_BRACE] + b.subrange(pos + 1, end) + seq![CLOSE_BRACE]
                        =~= b.subrange(pos, end + 1));
                } else {
                    assert(seq![OPEN_BRACE] + b.subrange(pos + 1, end) + seq![CLOSE_BRACE]
                        =~= b.subrange(pos, end).push(CLOSE_BRACE));
                }
            },
        }
    }
}

proof fn lemma_sources_from(b: Seq<u8>, pos: int)
    requires
        0 <= pos <= b.len(),
    ensures
        sources(parts_from(b, pos)) == if ends_in_unclosed_reference(b, pos) {
            b.subrange(pos, b.len() as int).push(CLOSE_BRACE)
        } else {
            b.subrange(pos, b.len() as int)
        },
    decreases b.len() - pos,
{
    if pos < b.len() {
        lemma_scan_advances(b, pos);
        let next = scan_next(b, pos);
        lemma_part_source(b, pos);
        lemma_sources_from(b, next);
        let parts = parts_from(b, pos);
        assert(parts.drop_first() =~= parts_from(b, next));
        if next == b.len() {
            assert(parts_from(b, next) =~= Seq::<PartView>::empty());
            assert(b.subrange(next, b.len() as int) =~= Seq::<u8>::empty());
            assert(part_source(scan_part(b, pos)) + Seq::<u8>::empty() =~= part_source(
                scan_part(b, pos),
            ));
        } else {
            assert(b.subrange(pos, next) + b.subrange(next, b.len() as int) =~= b.subrange(
                pos,
                b.len() as int,
            ));
            assert(b.subrange(pos, next) + b.subrange(next, b.len() as int).push(CLOSE_BRACE)
                =~= b.subrange(pos, b.len() as int).push(CLOSE_BRACE));
        }
    } else {
        assert(b.subrange(pos, b.len() as int) =~= Seq::<u8>::empty());
    }
}

/// The parts of a format string reproduce it, one after the other: each part
/// stands for the text it was read from, except that a reference the input ends
/// before closing gets its missing `}`.
pub proof fn law_parts_reproduce_input(b: Seq<u8>)
    ensures
        sources(format_parts(b)) == if ends_in_unclosed_reference(b, 0) {
            b.push(CLOSE_BRACE)
        } else {
            b
        },
{
    lemma_sources_from(b, 0);
    assert(b.subrange(0, b.len() as int) =~= b);
}

/// The captured names hold no name twice, hold only captured identifiers, hold
/// the name of every plain reference to a captured identifier, and hold nothing
/// else.
pub proof fn law_captured_names(parts: Seq<PartView>)
    ensures
        forall|i: int, j: int|
            0 <= i < j < captured_names(parts).len() ==> #[trigger] captured_names(parts)[i]
                != #[trigger] captured_names(parts)[j],
        forall|i: int|
            0 <= i < captured_names(parts).len() ==> captured_ident(
                #[trigger] captured_names(parts)[i],
            ),
        forall|i: int|
            0 <= i < parts.len() ==> (#[trigger] parts[i] matches PartView::VarRef(n) ==> (
            captured_ident(decode_utf8(n)) ==> captured_names(parts).contains(decode_utf8(n)))),
        forall|x: Seq<char>|
            #[trigger] captured_names(parts).contains(x) ==> exists|i: int|
                0 <= i < parts.len() && (#[trigger] parts[i] matches PartView::VarRef(n)
                    && decode_utf8(n) == x),
    decreases parts.len(),
{
    if parts.len() > 0 {
        let prev_parts = parts.drop_last();
        law_captured_names(prev_parts);
        let prev = captured_names(prev_parts);
        let out = captured_names(parts);
        assert forall|i: int| 0 <= i < parts.len() implies (#[trigger] parts[i] matches PartView::VarRef(n)
            ==> (captured_ident(decode_utf8(n)) ==> out.contains(decode_utf8(n)))) by {
            if i < parts.len() - 1 {
                assert(parts[i] == prev_parts[i]);
                if let PartView::VarRef(n) = parts[i] {
                    if captured_ident(decode_utf8(n)) {
                        assert(prev.contains(decode_utf8(n)));
                        let j = choose|j: int| 0 <= j < prev.len() && prev[j] == decode_utf8(n);
                        assert(out[j] == prev[j]);
                    }
                }
            } else {
                if let PartView::VarRef(n) = parts[i] {
                    if captured_ident(decode_utf8(n)) && !prev.contains(decode_utf8(n)) {
                        assert(out[out.len() - 1] == decode_utf8(n));
                    } else if captured_ident(decode_utf8(n)) {
                        let j = choose|j: int| 0 <= j < prev.len() && prev[j] == decode_utf8(n);
                        assert(out[j] == prev[j]);
                    }
                }
            }
        }
        assert forall|x: Seq<char>| #[trigger] out.contains(x) implies exists|i: int|
            0 <= i < parts.len() && (#[trigger] parts[i] matches PartView::VarRef(n) && decode_utf8(n)
                == x) by {
            let j = choose|j: int| 0 <= j < out.len() && out[j] == x;
            if j < prev.len() {
                assert(prev[j] == out[j]);
                assert(prev.contains(x));
                let i = choose|i: int|
                    0 <= i < prev_parts.len() && (#[trigger] prev_parts[i] matches PartView::VarRef(n)
                        && decode_utf8(n) == x);
                assert(parts[i] == prev_parts[i]);
            } else {
                assert(parts[parts.len() - 1] == parts.last());
            }
        }
    }
}

/// Raw text from `i` holds no brace.
proof fn lemma_raw_end_clean(b: Seq<u8>, i: int)
    requires
        0 <= i <= b.len(),
    ensures
        forall|j: int| i <= j < raw_end(b, i) ==> #[trigger] b[j] != OPEN_BRACE && b[j] != CLOSE_BRACE,
    decreases b.len() - i,
{
    if i < b.len() && b[i] != OPEN_BRACE && b[i] != CLOSE_BRACE {
        lemma_raw_end_clean(b, i + 1);
    }
}

/// No closing brace comes before the first one from `i`.
proof fn lemma_close_clean(b: Seq<u8>, i: int)
    requires
        0 <= i <= b.len(),
    ensures
        forall|j: int| i <= j < close_at_or_after(b, i) ==> #[trigger] b[j] != CLOSE_BRACE,
    decreases b.len() - i,
{
    if i < b.len() && b[i] != CLOSE_BRACE {
        lemma_close_clean(b, i + 1);
    }
}

/// A reference part names no `:`: in `{name}` the whole content is the name,
/// and in `{name:spec}` the first `:` of the content splits it, so that the
/// name (possibly empty) holds no `:` and the spec starts with that `:`. Neither
/// holds a `}`, which closes the reference. Raw text holds no brace but a lone
/// `}`, and an escaped brace is `{{` or `}}`.
pub proof fn law_reference_parts(b: Seq<u8>, pos: int)
    requires
        0 <= pos < b.len(),
    ensures
        scan_part(b, pos) matches PartView::VarRef(n) ==> !n.contains(COLON) && !n.contains(
            CLOSE_BRACE,
        ),
        scan_part(b, pos) matches PartView::VarRefFormat(n, f) ==> !n.contains(COLON) && f.len() > 0
            && f[0] == COLON && !n.contains(CLOSE_BRACE) && !f.contains(CLOSE_BRACE),
        scan_part(b, pos) matches PartView::RawString(s) ==> s.len() > 0 && (s == seq![CLOSE_BRACE] || (
        !s.contains(OPEN_BRACE) && !s.contains(CLOSE_BRACE))),
        scan_part(b, pos) matches PartView::EscapedBrace(s) ==> s == seq![OPEN_BRACE, OPEN_BRACE] || s
            == seq![CLOSE_BRACE, CLOSE_BRACE],
{
    lemma_raw_end(b, pos);
    lemma_raw_end_clean(b, pos);
    if b[pos] == OPEN_BRACE && pos + 1 < b.len() && b[pos + 1] == OPEN_BRACE {
        assert(b.subrange(pos, pos + 2) =~= seq![OPEN_BRACE, OPEN_BRACE]);
    } else if b[pos] == CLOSE_BRACE {
        if pos + 1 < b.len() && b[pos + 1] == CLOSE_BRACE {
            assert(b.subrange(pos, pos + 2) =~= seq![CLOSE_BRACE, CLOSE_BRACE]);
        } else {
            assert(b.subrange(pos, pos + 1) =~= seq![CLOSE_BRACE]);
        }
    } else if b[pos] != OPEN_BRACE {
        let s = b.subrange(pos, raw_end(b, pos));
        assert forall|i: int| 0 <= i < s.len() implies s[i] != OPEN_BRACE && s[i] != CLOSE_BRACE by {
            assert(s[i] == b[pos + i]);
        }
    }
    if b[pos] == OPEN_BRACE && !(pos + 1 < b.len() && b[pos + 1] == OPEN_BRACE) {
        lemma_close_clean(b, pos + 1);
        let end = close_at_or_after(b, pos + 1);
        lemma_close_at_or_after(b, pos + 1);
        lemma_first_colon(b, pos + 1, end);
        match first_colon(b, pos + 1, end) {
            Some(c) => {
                let n = b.subrange(pos + 1, c);
                let f = b.subrange(c, end);
                assert forall|i: int| 0 <= i < n.len() implies n[i] != COLON && n[i] != CLOSE_BRACE by {
                    assert(n[i] == b[pos + 1 + i]);
                }
                assert forall|i: int| 0 <= i < f.len() implies f[i] != CLOSE_BRACE by {
                    assert(f[i] == b[c + i]);
                }
                assert(f[0] == b[c]);
            },
            None => {
                let n = b.subrange(pos + 1, end);
                assert forall|i: int| 0 <= i < n.len() implies n[i] != COLON && n[i] != CLOSE_BRACE by {
                    assert(n[i] == b[pos + 1 + i]);
                }
            },
        }
    }
}

/// Every reference part of a format string follows `law_reference_parts`.
pub proof fn law_format_reference_parts(b: Seq<u8>)
    ensures
        forall|i: int|
            0 <= i < format_parts(b).len() ==> (#[trigger] format_parts(b)[i] matches PartView::VarRef(n)
                ==> !n.contains(COLON)),
        forall|i: int|
            0 <= i < format_parts(b).len() ==> (#[trigger] format_parts(b)[i] matches PartView::VarRefFormat(
                n,
                f,
            ) ==> !n.contains(COLON) && f.len() > 0 && f[0] == COLON),
{
    lemma_reference_parts_from(b, 0);
}

proof fn lemma_reference_parts_from(b: Seq<u8>, pos: int)
    requires
        0 <= pos <= b.len(),
    ensures
        forall|i: int|
            0 <= i < parts_from(b, pos).len() ==> (#[trigger] parts_from(b, pos)[i] matches PartView::VarRef(n)
                ==> !n.contains(COLON)),
        forall|i: int|
            0 <= i < parts_from(b, pos).len() ==> (#[trigger] parts_from(b, pos)[i] matches PartView::VarRefFormat(
                n,
                f,
            ) ==> !n.contains(COLON) && f.len() > 0 && f[0] == COLON),
    decreases b.len() - pos,
{
    if pos < b.len() {
        lemma_scan_advances(b, pos);
        let next = scan_next(b, pos);
        lemma_reference_parts_from(b, next);
        law_reference_parts(b, pos);
        let ps = parts_from(b, pos);
        assert forall|i: int| 0 < i < ps.len() implies ps[i] == parts_from(b, next)[i - 1] by {}
    }
}

} // verus!
