//! Values that travel inside a frame: each writes itself at an offset of a byte buffer and
//! reads itself back from an offset, reporting where it ended.

use vstd::prelude::*;

verus! {

/// `b` with the bytes from `at` on replaced by `s`.
pub open spec fn splice(b: Seq<u8>, at: int, s: Seq<u8>) -> Seq<u8> {
    b.subrange(0, at) + s + b.subrange(at + s.len(), b.len() as int)
}

/// Writing `w` and then `e` right behind it is writing `w + e`.
pub proof fn lemma_splice_twice(b: Seq<u8>, at: int, w: Seq<u8>, e: Seq<u8>)
    requires
        0 <= at,
        at + w.len() + e.len() <= b.len(),
    ensures
        splice(splice(b, at, w), at + w.len(), e) == splice(b, at, w + e),
{
    assert(splice(splice(b, at, w), at + w.len(), e) =~= splice(b, at, w + e));
}

/// What is left of `s` from `at` on.
pub open spec fn tail_from(s: Seq<u8>, at: int) -> Seq<u8> {
    s.subrange(at, s.len() as int)
}

/// A new vector holding the same bytes.
pub fn copy_bytes(v: &Vec<u8>) -> (r: Vec<u8>)
    ensures
        r@ == v@,
{
    let mut r: Vec<u8> = Vec::with_capacity(v.len());
    let mut i: usize = 0;
    while i < v.len()
        invariant
            i <= v.len(),
            r@ == v@.subrange(0, i as int),
        decreases v.len() - i,
    {
        r.push(v[i]);
        i = i + 1;
    }
    assert(r@ == v@);
    r
}

/// The bytes `src[from..to]` as a new vector.
pub fn slice_to_vec(src: &[u8], from: usize, to: usize) -> (r: Vec<u8>)
    requires
        from <= to <= src@.len(),
    ensures
        r@ == src@.subrange(from as int, to as int),
{
    let mut r: Vec<u8> = Vec::with_capacity(to - from);
    let mut i: usize = from;
    while i < to
        invariant
            from <= i <= to,
            to <= src@.len(),
            r@ == src@.subrange(from as int, i as int),
        decreases to - i,
    {
        r.push(src[i]);
        i = i + 1;
    }
    r
}

/// Writes `src` into `buffer` from `at` on.
pub fn write_bytes(buffer: &mut Vec<u8>, at: usize, src: &[u8])
    requires
        at + src@.len() <= old(buffer)@.len(),
    ensures
        final(buffer)@ == splice(old(buffer)@, at as int, src@),
{
    let ghost start = buffer@;
    let blen = buffer.len();
    let mut i: usize = 0;
    while i < src.len()
        invariant
            at + src@.len() <= blen,
            blen == buffer@.len(),
            buffer@.len() == start.len(),
            i <= src@.len(),
            buffer@ == splice(start, at as int, src@.subrange(0, i as int)),
        decreases src@.len() - i,
    {
        buffer.set(at + i, src[i]);
        i = i + 1;
        assert(buffer@ =~= splice(start, at as int, src@.subrange(0, i as int)));
    }
    assert(src@.subrange(0, src@.len() as int) =~= src@);
}

/// A value with a byte encoding that can be written into a buffer and read back. The
/// encoding is a function of the value's view.
pub trait Sendable: Sized + View {
    type SerError;

    type DeSerError;

    /// The bytes that stand for a value.
    spec fn spec_encoding(v: Self::V) -> Seq<u8>;

    /// Whether a value can be encoded at all (every length fits its one-byte prefix).
    spec fn spec_in_domain(v: Self::V) -> bool;

    /// Reading a value from the front of `s`: the value and the number of bytes it took.
    spec fn spec_parse(s: Seq<u8>) -> Result<(Self::V, nat), Self::DeSerError>;

    /// Reading back the encoding of a value gives the value, whatever follows it.
    proof fn lemma_round_trip(v: Self::V, rest: Seq<u8>)
        requires
            Self::spec_in_domain(v),
        ensures
            Self::spec_parse(Self::spec_encoding(v) + rest) == Ok::<
                (Self::V, nat),
                Self::DeSerError,
            >((v, Self::spec_encoding(v).len())),
    ;

    /// A successful read gives a value that can be encoded, and depends only on the bytes it
    /// took.
    proof fn lemma_parse_prefix(s: Seq<u8>, t: Seq<u8>)
        ensures
            Self::spec_parse(s) matches Ok((v, n)) ==> {
                &&& Self::spec_in_domain(v)
                &&& n <= s.len()
                &&& Self::spec_parse(s.subrange(0, n as int) + t) == Self::spec_parse(s)
            },
    ;

    /// Writes the encoding at `at` and returns the offset just past it; fails when the value
    /// cannot be encoded or does not fit.
    fn serialize(&self, buffer: &mut Vec<u8>, at: usize) -> (r: Result<usize, Self::SerError>)
        requires
            at <= old(buffer)@.len(),
        ensures
            final(buffer)@.len() == old(buffer)@.len(),
            final(buffer)@.subrange(0, at as int) == old(buffer)@.subrange(0, at as int),
            r is Ok <==> (Self::spec_in_domain(self@) && at + Self::spec_encoding(self@).len()
                <= old(buffer)@.len()),
            r matches Ok(end) ==> end == at + Self::spec_encoding(self@).len() && final(buffer)@
                == splice(old(buffer)@, at as int, Self::spec_encoding(self@)),
    ;

    /// Reads a value at `at` and returns it with the offset just past it.
    fn deserialize(buffer: &[u8], at: usize) -> (r: Result<(Self, usize), Self::DeSerError>)
        requires
            at <= buffer@.len(),
        ensures
            match Self::spec_parse(tail_from(buffer@, at as int)) {
                Ok((v, n)) => r matches Ok((x, end)) && x@ == v && end == at + n,
                Err(e) => r == Err::<(Self, usize), Self::DeSerError>(e),
            },
    ;

    /// A copy of the value with the same view.
    fn duplicate(&self) -> (r: Self)
        ensures
            r@ == self@,
    ;
}

/// A UTF-8 continuation byte.
pub open spec fn is_cont(b: u8) -> bool {
    0x80 <= b <= 0xBF
}

/// The length of the well-formed UTF-8 sequence of one character at the front of `s`, or 0 when
/// there is none (the table of well-formed byte sequences of the Unicode standard).
pub open spec fn utf8_width(s: Seq<u8>) -> nat {
    if s.len() == 0 {
        0
    } else if s[0] <= 0x7F {
        1
    } else if 0xC2 <= s[0] <= 0xDF {
        if s.len() >= 2 && is_cont(s[1]) {
            2
        } else {
            0
        }
    } else if 0xE0 <= s[0] <= 0xEF {
        if s.len() >= 3 && (if s[0] == 0xE0 {
            0xA0 <= s[1] <= 0xBF
        } else if s[0] == 0xED {
            0x80 <= s[1] <= 0x9F
        } else {
            is_cont(s[1])
        }) && is_cont(s[2]) {
            3
        } else {
            0
        }
    } else if 0xF0 <= s[0] <= 0xF4 {
        if s.len() >= 4 && (if s[0] == 0xF0 {
            0x90 <= s[1] <= 0xBF
        } else if s[0] == 0xF4 {
            0x80 <= s[1] <= 0x8F
        } else {
            is_cont(s[1])
        }) && is_cont(s[2]) && is_cont(s[3]) {
            4
        } else {
            0
        }
    } else {
        0
    }
}

/// Whether `s` is well-formed UTF-8: a run of well-formed characters.
pub open spec fn utf8_ok(s: Seq<u8>) -> bool
    decreases s.len(),
{
    if s.len() == 0 {
        true
    } else {
        let w = utf8_width(s);
        if w == 0 || w > s.len() {
            false
        } else {
            utf8_ok(s.subrange(w as int, s.len() as int))
        }
    }
}

/// The width of the character at `buf[i..end]`, as `utf8_width` gives it.
fn utf8_width_at(buf: &[u8], i: usize, end: usize) -> (w: usize)
    requires
        i < end <= buf@.len(),
    ensures
        w == utf8_width(buf@.subrange(i as int, end as int)),
{
    let ghost s = buf@.subrange(i as int, end as int);
    let n = end - i;
    let b0 = buf[i];
    assert(s[0] == b0);
    if b0 <= 0x7F {
        return 1;
    }
    if 0xC2 <= b0 && b0 <= 0xDF {
        if n >= 2 {
            assert(s[1] == buf@[i + 1]);
            if 0x80 <= buf[i + 1] && buf[i + 1] <= 0xBF {
                return 2;
            }
        }
        return 0;
    }
    if 0xE0 <= b0 && b0 <= 0xEF {
        if n >= 3 {
            let b1 = buf[i + 1];
            let b2 = buf[i + 2];
            assert(s[1] == b1 && s[2] == b2);
            let second = if b0 == 0xE0 {
                0xA0 <= b1 && b1 <= 0xBF
            } else if b0 == 0xED {
                0x80 <= b1 && b1 <= 0x9F
            } else {
                0x80 <= b1 && b1 <= 0xBF
            };
            if second && 0x80 <= b2 && b2 <= 0xBF {
                return 3;
            }
        }
        return 0;
    }
    if 0xF0 <= b0 && b0 <= 0xF4 {
        if n >= 4 {
            let b1 = buf[i + 1];
            let b2 = buf[i + 2];
            let b3 = buf[i + 3];
            assert(s[1] == b1 && s[2] == b2 && s[3] == b3);
            let second = if b0 == 0xF0 {
                0x90 <= b1 && b1 <= 0xBF
            } else if b0 == 0xF4 {
                0x80 <= b1 && b1 <= 0x8F
            } else {
                0x80 <= b1 && b1 <= 0xBF
            };
            if second && 0x80 <= b2 && b2 <= 0xBF && 0x80 <= b3 && b3 <= 0xBF {
                return 4;
            }
        }
        return 0;
    }
    0
}

/// Whether `buf[from..to]` is well-formed UTF-8.
pub fn is_utf8(buf: &[u8], from: usize, to: usize) -> (r: bool)
    requires
        from <= to <= buf@.len(),
    ensures
        r == utf8_ok(buf@.subrange(from as int, to as int)),
{
    let mut i: usize = from;
    while i < to
        invariant
            from <= i <= to,
            to <= buf@.len(),
            utf8_ok(buf@.subrange(from as int, to as int)) == utf8_ok(buf@.subrange(i as int, to as int)),
        decreases to - i,
    {
        let w = utf8_width_at(buf, i, to);
        if w == 0 || w > to - i {
            return false;
        }
        assert(buf@.subrange(i as int, to as int).subrange(w as int, (to - i) as int) =~= buf@.subrange(
            (i + w) as int,
            to as int,
        ));
        i = i + w;
    }
    assert(buf@.subrange(i as int, to as int).len() == 0);
    true
}

/// The encoding of a text: its length in one byte, then its bytes.
pub open spec fn text_encoding(t: Seq<u8>) -> Seq<u8> {
    seq![t.len() as u8] + t
}

/// Reading a text from the front of `s`: its length, then that many bytes of UTF-8.
pub open spec fn text_parse(s: Seq<u8>) -> Result<(Seq<u8>, nat), ()> {
    if s.len() >= 1 && s.len() >= 1 + s[0] && utf8_ok(s.subrange(1, 1 + s[0])) {
        Ok((s.subrange(1, 1 + s[0]), (1 + s[0]) as nat))
    } else {
        Err(())
    }
}

/// A text travels as its UTF-8 bytes behind a one-byte length.
impl Sendable for Vec<u8> {
    type SerError = ();

    type DeSerError = ();

    open spec fn spec_encoding(v: Seq<u8>) -> Seq<u8> {
        text_encoding(v)
    }

    open spec fn spec_in_domain(v: Seq<u8>) -> bool {
        v.len() <= 255 && utf8_ok(v)
    }

    open spec fn spec_parse(s: Seq<u8>) -> Result<(Seq<u8>, nat), ()> {
        text_parse(s)
    }

    proof fn lemma_round_trip(v: Seq<u8>, rest: Seq<u8>) {
        let s = text_encoding(v) + rest;
        assert(s[0] == v.len() as u8);
        assert(s.subrange(1, 1 + v.len() as int) =~= v);
    }

    proof fn lemma_parse_prefix(s: Seq<u8>, t: Seq<u8>) {
        if s.len() >= 1 && s.len() >= 1 + s[0] && utf8_ok(s.subrange(1, 1 + s[0])) {
            let u = s.subrange(0, 1 + s[0]) + t;
            assert(u[0] == s[0]);
            assert(u.subrange(1, 1 + s[0]) =~= s.subrange(1, 1 + s[0]));
        }
    }

    fn serialize(&self, buffer: &mut Vec<u8>, at: usize) -> (r: Result<usize, ()>) {
        if self.len() > 255 || buffer.len() - at < self.len() + 1 {
            return Err(());
        }
        assert(self@.subrange(0, self@.len() as int) =~= self@);
        if !is_utf8(self.as_slice(), 0, self.len()) {
            return Err(());
        }
        let ghost start = buffer@;
        buffer.set(at, self.len() as u8);
        write_bytes(buffer, at + 1, self.as_slice());
        assert(buffer@ =~= splice(start, at as int, text_encoding(self@)));
        Ok(at + 1 + self.len())
    }

    fn deserialize(buffer: &[u8], at: usize) -> (r: Result<(Vec<u8>, usize), ()>) {
        let ghost s = tail_from(buffer@, at as int);
        if at >= buffer.len() {
            return Err(());
        }
        let len = buffer[at] as usize;
        assert(s[0] == buffer@[at as int]);
        if buffer.len() - at - 1 < len {
            return Err(());
        }
        assert(s.subrange(1, 1 + s[0]) =~= buffer@.subrange(at + 1, at + 1 + len));
        if !is_utf8(buffer, at + 1, at + 1 + len) {
            return Err(());
        }
        let text = slice_to_vec(buffer, at + 1, at + 1 + len);
        assert(text@ =~= s.subrange(1, 1 + s[0]));
        Ok((text, at + 1 + len))
    }

    fn duplicate(&self) -> (r: Vec<u8>) {
        copy_bytes(self)
    }
}

} // verus!
