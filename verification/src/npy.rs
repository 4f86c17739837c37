//! Arrays in NumPy's `.npy` format.

use vstd::prelude::*;

use crate::chars;

verus! {

#[derive(Clone, Copy, Debug, PartialEq, Eq, Structural)]
pub enum NpyError {
    TooSmall,
    BadMagic,
    InvalidV2Header,
    UnsupportedVersion { major: u8, minor: u8 },
    TruncatedHeader,
    HeaderNotUtf8,
    MissingDescr,
    InvalidDescr,
    MissingFortranOrder,
    InvalidFortranOrder,
    InvalidFortranOrderValue,
    MissingShape,
    InvalidShape,
    InvalidShapeElement,
    FortranOrder,
    DtypeMismatch,
    NdimMismatch,
    Misaligned,
    SizeOverflow,
    DataTruncated,
}

#[derive(Debug)]
pub struct NpyHeader {
    pub descr: String,
    pub fortran_order: bool,
    pub shape: Vec<usize>,
}

// ---------------------------------------------------------------------------
// The header: a Python dictionary in text form

/// What stands behind the first occurrence of `key`.
pub open spec fn behind_key(h: Seq<char>, key: Seq<char>) -> Option<Seq<char>> {
    match chars::index_of_text(h, key) {
        None => None,
        Some(k) => Some(h.skip(k as int + key.len())),
    }
}

/// What stands behind the first `c`.
pub open spec fn behind_char(h: Seq<char>, c: char) -> Option<Seq<char>> {
    match chars::index_of_char(h, c) {
        None => None,
        Some(k) => Some(h.skip(k as int + 1)),
    }
}

/// What stands in front of the first `c`.
pub open spec fn before_char(h: Seq<char>, c: char) -> Option<Seq<char>> {
    match chars::index_of_char(h, c) {
        None => None,
        Some(k) => Some(h.take(k as int)),
    }
}

/// The quoted text behind the key `descr`.
pub open spec fn descr_of(h: Seq<char>) -> Result<Seq<char>, NpyError> {
    match behind_key(h, "'descr'"@) {
        None => Err(NpyError::MissingDescr),
        Some(rest) => match behind_char(rest, '\'') {
            None => Err(NpyError::InvalidDescr),
            Some(quoted) => match before_char(quoted, '\'') {
                None => Err(NpyError::InvalidDescr),
                Some(d) => Ok(d),
            },
        },
    }
}

/// The word behind the key `fortran_order` and a colon.
pub open spec fn fortran_of(h: Seq<char>) -> Result<bool, NpyError> {
    match behind_key(h, "'fortran_order'"@) {
        None => Err(NpyError::MissingFortranOrder),
        Some(rest) => match behind_char(rest, ':') {
            None => Err(NpyError::InvalidFortranOrder),
            Some(value) => {
                let word = chars::trim_start(value);
                if chars::starts_with(word, "True"@) {
                    Ok(true)
                } else if chars::starts_with(word, "False"@) {
                    Ok(false)
                } else {
                    Err(NpyError::InvalidFortranOrderValue)
                }
            },
        },
    }
}

/// The numbers among `parts`; parts of white space alone are passed over.
pub open spec fn numbers_in(parts: Seq<Seq<char>>) -> Result<Seq<usize>, NpyError>
    decreases parts.len(),
{
    if parts.len() == 0 {
        Ok(Seq::empty())
    } else {
        match numbers_in(parts.drop_last()) {
            Err(e) => Err(e),
            Ok(before) => {
                let t = chars::trimmed(parts.last());
                if t.len() == 0 {
                    Ok(before)
                } else {
                    match chars::spelled_number(t, usize::MAX as nat) {
                        None => Err(NpyError::InvalidShapeElement),
                        Some(v) => Ok(before.push(v as usize)),
                    }
                }
            },
        }
    }
}

/// The numbers in the round brackets behind the key `shape`.
pub open spec fn shape_of(h: Seq<char>) -> Result<Seq<usize>, NpyError> {
    match behind_key(h, "'shape'"@) {
        None => Err(NpyError::MissingShape),
        Some(rest) => match behind_char(rest, '(') {
            None => Err(NpyError::InvalidShape),
            Some(open) => match before_char(open, ')') {
                None => Err(NpyError::InvalidShape),
                Some(inside) => {
                    let t = chars::trimmed(inside);
                    if t.len() == 0 {
                        Ok(Seq::empty())
                    } else {
                        numbers_in(chars::split_on(t, ','))
                    }
                },
            },
        },
    }
}

/// Reads a text from behind the first occurrence of `key`.
fn skip_key(h: &Vec<char>, key: &str) -> (r: Option<Vec<char>>)
    ensures
        r is Some <==> behind_key(h@, key@) is Some,
        r matches Some(rest) ==> behind_key(h@, key@) == Some(rest@),
{
    let total: usize = h.len();
    match chars::find_text(h, key) {
        None => None,
        Some(k) => Some(tail(h, k + key.unicode_len())),
    }
}

fn tail(h: &Vec<char>, from: usize) -> (r: Vec<char>)
    requires
        from <= h@.len(),
    ensures
        r@ == h@.skip(from as int),
{
    let mut out: Vec<char> = Vec::new();
    let mut i: usize = from;
    while i < h.len()
        invariant
            from <= i <= h@.len(),
            out@ == h@.subrange(from as int, i as int),
        decreases h@.len() - i,
    {
        out.push(h[i]);
        i = i + 1;
        assert(out@ =~= h@.subrange(from as int, i as int));
    }
    assert(out@ =~= h@.skip(from as int));
    out
}

fn skip_char(h: &Vec<char>, c: char) -> (r: Option<Vec<char>>)
    ensures
        r is Some <==> behind_char(h@, c) is Some,
        r matches Some(rest) ==> behind_char(h@, c) == Some(rest@),
{
    let total: usize = h.len();
    assert(h@.skip(0) =~= h@);
    match chars::find_char(h, 0, c) {
        None => None,
        Some(k) => Some(tail(h, k + 1)),
    }
}

fn until_char(h: &Vec<char>, c: char) -> (r: Option<String>)
    ensures
        r is Some <==> before_char(h@, c) is Some,
        r matches Some(front) ==> before_char(h@, c) == Some(front@),
{
    assert(h@.skip(0) =~= h@);
    match chars::find_char(h, 0, c) {
        None => None,
        Some(k) => {
            assert(h@.subrange(0, k as int) =~= h@.take(k as int));
            Some(chars::from_chars(h, 0, k))
        },
    }
}

fn read_descr(h: &Vec<char>) -> (r: Result<String, NpyError>)
    ensures
        match r {
            Ok(d) => descr_of(h@) == Ok::<Seq<char>, NpyError>(d@),
            Err(e) => descr_of(h@) == Err::<Seq<char>, NpyError>(e),
        },
{
    let rest = match skip_key(h, "'descr'") {
        None => return Err(NpyError::MissingDescr),
        Some(rest) => rest,
    };
    let quoted = match skip_char(&rest, '\'') {
        None => return Err(NpyError::InvalidDescr),
        Some(q) => q,
    };
    match until_char(&quoted, '\'') {
        None => Err(NpyError::InvalidDescr),
        Some(d) => Ok(d),
    }
}

fn word_at_front(h: &Vec<char>, word: &str) -> (r: bool)
    ensures
        r == chars::starts_with(chars::trim_start(h@), word@),
{
    let mut i: usize = 0;
    assert(h@.skip(0) =~= h@);
    while i < h.len() && chars::is_space(h[i])
        invariant
            i <= h@.len(),
            chars::trim_start(h@) == chars::trim_start(h@.skip(i as int)),
        ensures
            i <= h@.len(),
            chars::trim_start(h@) == h@.skip(i as int),
        decreases h@.len() - i,
    {
        assert(h@.skip(i as int).skip(1) =~= h@.skip(i as int + 1));
        i = i + 1;
    }
    let pat = chars::to_chars(word);
    chars::text_at(h, i, &pat)
}

fn read_fortran(h: &Vec<char>) -> (r: Result<bool, NpyError>)
    ensures
        r == fortran_of(h@),
{
    let rest = match skip_key(h, "'fortran_order'") {
        None => return Err(NpyError::MissingFortranOrder),
        Some(rest) => rest,
    };
    let value = match skip_char(&rest, ':') {
        None => return Err(NpyError::InvalidFortranOrder),
        Some(v) => v,
    };
    if word_at_front(&value, "True") {
        Ok(true)
    } else if word_at_front(&value, "False") {
        Ok(false)
    } else {
        Err(NpyError::InvalidFortranOrderValue)
    }
}

fn read_numbers(parts: &Vec<String>) -> (r: Result<Vec<usize>, NpyError>)
    ensures
        match r {
            Ok(v) => numbers_in(chars::views(parts@)) == Ok::<Seq<usize>, NpyError>(v@),
            Err(e) => numbers_in(chars::views(parts@)) == Err::<Seq<usize>, NpyError>(e),
        },
{
    let ghost all = chars::views(parts@);
    let mut out: Vec<usize> = Vec::new();
    let mut i: usize = 0;
    while i < parts.len()
        invariant
            i <= parts@.len(),
            all == chars::views(parts@),
            numbers_in(all.take(i as int)) == Ok::<Seq<usize>, NpyError>(out@),
        decreases parts@.len() - i,
    {
        assert(all.take(i as int + 1).drop_last() =~= all.take(i as int));
        assert(all.take(i as int + 1).last() == parts@[i as int]@);
        let t = chars::trim(parts[i].as_str());
        if t.as_str().unicode_len() > 0 {
            match chars::parse_usize(t.as_str()) {
                None => {
                    proof {
                        lemma_numbers_error(all, i as int + 1, NpyError::InvalidShapeElement);
                    }
                    return Err(NpyError::InvalidShapeElement);
                },
                Some(v) => {
                    out.push(v);
                },
            }
        }
        i = i + 1;
    }
    assert(all.take(i as int) =~= all);
    Ok(out)
}

proof fn lemma_numbers_error(parts: Seq<Seq<char>>, k: int, e: NpyError)
    requires
        0 <= k <= parts.len(),
        numbers_in(parts.take(k)) == Err::<Seq<usize>, NpyError>(e),
    ensures
        numbers_in(parts) == Err::<Seq<usize>, NpyError>(e),
    decreases parts.len() - k,
{
    if k == parts.len() {
        assert(parts.take(k) =~= parts);
    } else {
        assert(parts.take(k + 1).drop_last() =~= parts.take(k));
        lemma_numbers_error(parts, k + 1, e);
    }
}

fn read_shape(h: &Vec<char>) -> (r: Result<Vec<usize>, NpyError>)
    ensures
        match r {
            Ok(v) => shape_of(h@) == Ok::<Seq<usize>, NpyError>(v@),
            Err(e) => shape_of(h@) == Err::<Seq<usize>, NpyError>(e),
        },
{
    let rest = match skip_key(h, "'shape'") {
        None => return Err(NpyError::MissingShape),
        Some(rest) => rest,
    };
    let open = match skip_char(&rest, '(') {
        None => return Err(NpyError::InvalidShape),
        Some(o) => o,
    };
    let inside = match until_char(&open, ')') {
        None => return Err(NpyError::InvalidShape),
        Some(i) => i,
    };
    let t = chars::trim(inside.as_str());
    if t.as_str().unicode_len() == 0 {
        let out: Vec<usize> = Vec::new();
        assert(out@ =~= Seq::<usize>::empty());
        return Ok(out);
    }
    let parts = chars::split(t.as_str(), ',');
    read_numbers(&parts)
}

/// What a header dictionary says; the first of its three entries that cannot be
/// read decides the error.
pub open spec fn header_is(h: Seq<char>, r: Result<NpyHeader, NpyError>) -> bool {
    match descr_of(h) {
        Err(e) => r == Err::<NpyHeader, NpyError>(e),
        Ok(descr) => match fortran_of(h) {
            Err(e) => r == Err::<NpyHeader, NpyError>(e),
            Ok(fortran) => match shape_of(h) {
                Err(e) => r == Err::<NpyHeader, NpyError>(e),
                Ok(shape) => r matches Ok(x) && x.descr@ == descr && x.fortran_order == fortran && x.shape@ == shape,
            },
        },
    }
}

pub fn parse_header_dict(header: &str) -> (r: Result<NpyHeader, NpyError>)
    ensures
        header_is(header@, r),
{
    let h = chars::to_chars(header);
    let descr = match read_descr(&h) {
        Err(e) => return Err(e),
        Ok(d) => d,
    };
    let fortran_order: bool = match read_fortran(&h) {
        Err(e) => return Err(e),
        Ok(f) => f,
    };
    let shape = match read_shape(&h) {
        Err(e) => return Err(e),
        Ok(s) => s,
    };
    Ok(NpyHeader { descr, fortran_order, shape })
}

/// The product of the numbers, cut to what a `usize` holds after each factor.
pub open spec fn product_spec(shape: Seq<usize>) -> nat
    decreases shape.len(),
{
    if shape.len() == 0 {
        1
    } else {
        let p = product_spec(shape.drop_last()) * shape.last() as nat;
        if p > usize::MAX {
            usize::MAX as nat
        } else {
            p
        }
    }
}

pub fn product(shape: &[usize]) -> (r: usize)
    ensures
        r == product_spec(shape@),
{
    let mut p: usize = 1;
    let mut i: usize = 0;
    while i < shape.len()
        invariant
            i <= shape@.len(),
            p == product_spec(shape@.take(i as int)),
        decreases shape@.len() - i,
    {
        assert(shape@.take(i as int + 1).drop_last() =~= shape@.take(i as int));
        let next: Option<usize> = p.checked_mul(shape[i]);
        p = match next {
            Some(v) => v,
            None => usize::MAX,
        };
        i = i + 1;
    }
    assert(shape@.take(shape@.len() as int) =~= shape@);
    p
}

// ---------------------------------------------------------------------------
// The file

/// The number whose bytes, least significant first, are `s`.
pub open spec fn le_value(s: Seq<u8>) -> nat
    decreases s.len(),
{
    if s.len() == 0 {
        0
    } else {
        s[0] as nat + 256 * le_value(s.skip(1))
    }
}

/// `256` to the power `k`.
pub open spec fn byte_range(k: nat) -> nat
    decreases k,
{
    if k == 0 {
        1
    } else {
        256 * byte_range((k - 1) as nat)
    }
}

proof fn lemma_le_value(s: Seq<u8>)
    ensures
        le_value(s) < byte_range(s.len()),
    decreases s.len(),
{
    if s.len() > 0 {
        lemma_le_value(s.skip(1));
    }
}

fn read_le(bytes: &[u8], at: usize, width: usize) -> (r: u64)
    requires
        at + width <= bytes@.len(),
        width <= 8,
    ensures
        r == le_value(bytes@.subrange(at as int, at + width)),
        r < byte_range(width as nat),
{
    let ghost all = bytes@.subrange(at as int, at + width);
    let total: usize = bytes.len();
    let mut v: u64 = 0;
    let mut k: usize = width;
    assert(all.skip(width as int) =~= Seq::<u8>::empty());
    while k > 0
        invariant
            k <= width <= 8,
            at + width <= total == bytes@.len(),
            all == bytes@.subrange(at as int, at + width),
            v == le_value(all.skip(k as int)),
        decreases k,
    {
        k = k - 1;
        proof {
            let s = all.skip(k as int);
            assert(s.skip(1) =~= all.skip(k as int + 1));
            assert(s[0] == bytes@[at + k]);
            lemma_le_value(all.skip(k as int + 1));
            lemma_byte_range((width - k - 1) as nat);
        }
        v = v * 256 + bytes[at + k] as u64;
    }
    proof {
        assert(all.skip(0) =~= all);
        lemma_le_value(all);
    }
    v
}

proof fn lemma_byte_range(k: nat)
    requires
        k <= 7,
    ensures
        byte_range(k) <= 0x100_0000_0000_0000,
{
    reveal_with_fuel(byte_range, 8);
}

/// An unsigned number of a fixed count of bytes.
pub trait Element: Copy {
    spec fn width_spec() -> nat;

    spec fn of_spec(v: nat) -> Self;

    fn width() -> (r: usize)
        ensures
            r == Self::width_spec(),
            2 <= r <= 8,
    ;

    fn of(v: u64) -> (r: Self)
        requires
            v < byte_range(Self::width_spec()),
        ensures
            r == Self::of_spec(v as nat),
    ;
}

impl Element for u16 {
    open spec fn width_spec() -> nat {
        2
    }

    open spec fn of_spec(v: nat) -> Self {
        v as u16
    }

    fn width() -> (r: usize) {
        2
    }

    fn of(v: u64) -> (r: Self) {
        proof {
            reveal_with_fuel(byte_range, 3);
        }
        v as u16
    }
}

impl Element for u32 {
    open spec fn width_spec() -> nat {
        4
    }

    open spec fn of_spec(v: nat) -> Self {
        v as u32
    }

    fn width() -> (r: usize) {
        4
    }

    fn of(v: u64) -> (r: Self) {
        proof {
            reveal_with_fuel(byte_range, 5);
        }
        v as u32
    }
}

impl Element for u64 {
    open spec fn width_spec() -> nat {
        8
    }

    open spec fn of_spec(v: nat) -> Self {
        v as u64
    }

    fn width() -> (r: usize) {
        8
    }

    fn of(v: u64) -> (r: Self) {
        v
    }
}

/// An array: its items in row-major order, and its extents.
#[derive(Debug)]
pub struct NpyMemmap<T> {
    values: Vec<T>,
    shape: Vec<usize>,
}

impl<T: Copy> NpyMemmap<T> {
    pub closed spec fn items(&self) -> Seq<T> {
        self.values@
    }

    pub closed spec fn extents(&self) -> Seq<usize> {
        self.shape@
    }

    /// An array of the given items.
    pub fn from_parts(values: Vec<T>, shape: Vec<usize>) -> (r: Self)
        ensures
            r.items() == values@,
            r.extents() == shape@,
    {
        NpyMemmap { values, shape }
    }

    pub fn shape(&self) -> (r: &[usize])
        ensures
            r@ == self.extents(),
    {
        &self.shape
    }

    pub fn len(&self) -> (r: usize)
        ensures
            r == self.items().len(),
    {
        self.values.len()
    }

    pub fn as_slice(&self) -> (r: &[T])
        ensures
            r@ == self.items(),
    {
        &self.values
    }
}

/// `std::str::from_utf8` succeeds on well-formed UTF-8 alone and gives its
/// characters.
#[verifier::external_body]
fn utf8_text(bytes: &[u8]) -> (r: Option<String>)
    ensures
        r is Some <==> vstd::utf8::valid_utf8(bytes@),
        r matches Some(s) ==> s@ == vstd::utf8::decode_utf8(bytes@),
{
    match std::str::from_utf8(bytes) {
        Ok(s) => Some(s.to_string()),
        Err(_) => None,
    }
}

/// The first six bytes of the format.
pub open spec fn magic() -> Seq<u8> {
    seq![0x93u8, 0x4e, 0x55, 0x4d, 0x50, 0x59]
}

/// Where the header text begins, and how long it is.
pub open spec fn header_place(b: Seq<u8>) -> Result<(nat, nat), NpyError> {
    if b.len() < 10 {
        Err(NpyError::TooSmall)
    } else if b.take(6) != magic() {
        Err(NpyError::BadMagic)
    } else if b[6] == 1 && b[7] == 0 {
        Ok((10, le_value(b.subrange(8, 10))))
    } else if b[6] == 2 && b[7] == 0 {
        if b.len() < 12 {
            Err(NpyError::InvalidV2Header)
        } else {
            Ok((12, le_value(b.subrange(8, 12))))
        }
    } else {
        Err(NpyError::UnsupportedVersion { major: b[6], minor: b[7] })
    }
}

/// The header text, and where the data begins.
pub open spec fn header_text(b: Seq<u8>) -> Result<(Seq<char>, nat), NpyError> {
    match header_place(b) {
        Err(e) => Err(e),
        Ok(p) => {
            let end = p.0 + p.1;
            if b.len() < end {
                Err(NpyError::TruncatedHeader)
            } else {
                let h = b.subrange(p.0 as int, end as int);
                if vstd::utf8::valid_utf8(h) {
                    Ok((vstd::utf8::decode_utf8(h), end))
                } else {
                    Err(NpyError::HeaderNotUtf8)
                }
            }
        },
    }
}

/// Item `i` of data that begins at `at`.
pub open spec fn item_at<T: Element>(b: Seq<u8>, at: int, i: int) -> T {
    T::of_spec(le_value(b.subrange(at + i * T::width_spec(), at + (i + 1) * T::width_spec())))
}

/// The items and extents in a file, or why it is refused.
pub open spec fn array_in<T: Element>(b: Seq<u8>, descr: Seq<char>, ndim: nat) -> Result<
    (Seq<T>, Seq<usize>),
    NpyError,
> {
    match header_text(b) {
        Err(e) => Err(e),
        Ok(p) => {
            let h = p.0;
            let at = p.1 as int;
            match descr_of(h) {
                Err(e) => Err(e),
                Ok(d) => match fortran_of(h) {
                    Err(e) => Err(e),
                    Ok(fortran) => match shape_of(h) {
                        Err(e) => Err(e),
                        Ok(shape) => if fortran {
                            Err(NpyError::FortranOrder)
                        } else if d != descr {
                            Err(NpyError::DtypeMismatch)
                        } else if shape.len() != ndim {
                            Err(NpyError::NdimMismatch)
                        } else if at % (T::width_spec() as int) != 0 {
                            Err(NpyError::Misaligned)
                        } else if product_spec(shape) * T::width_spec() > usize::MAX {
                            Err(NpyError::SizeOverflow)
                        } else if b.len() < at + product_spec(shape) * T::width_spec() {
                            Err(NpyError::DataTruncated)
                        } else {
                            Ok((Seq::new(product_spec(shape), |i: int| item_at::<T>(b, at, i)), shape))
                        },
                    },
                },
            }
        },
    }
}

fn find_header(b: &[u8]) -> (r: Result<(usize, usize), NpyError>)
    ensures
        match r {
            Ok(p) => header_place(b@) == Ok::<(nat, nat), NpyError>((p.0 as nat, p.1 as nat)) && p.0 <= b@.len(),
            Err(e) => header_place(b@) == Err::<(nat, nat), NpyError>(e),
        },
{
    if b.len() < 10 {
        return Err(NpyError::TooSmall);
    }
    if !(b[0] == 0x93 && b[1] == 0x4e && b[2] == 0x55 && b[3] == 0x4d && b[4] == 0x50 && b[5] == 0x59) {
        proof {
            let f = b@.take(6);
            let g = magic();
            assert(f[0] == b@[0] && f[1] == b@[1] && f[2] == b@[2] && f[3] == b@[3] && f[4] == b@[4] && f[5] == b@[5]);
            assert(g[0] == 0x93 && g[1] == 0x4e && g[2] == 0x55 && g[3] == 0x4d && g[4] == 0x50 && g[5] == 0x59);
        }
        return Err(NpyError::BadMagic);
    }
    assert(b@.take(6) =~= magic());
    let major: u8 = b[6];
    let minor: u8 = b[7];
    proof {
        reveal_with_fuel(byte_range, 5);
    }
    if major == 1 && minor == 0 {
        Ok((10, read_le(b, 8, 2) as usize))
    } else if major == 2 && minor == 0 {
        if b.len() < 12 {
            return Err(NpyError::InvalidV2Header);
        }
        Ok((12, read_le(b, 8, 4) as usize))
    } else {
        Err(NpyError::UnsupportedVersion { major, minor })
    }
}

fn read_items<T: Element>(b: &[u8], at: usize, count: usize) -> (r: Vec<T>)
    requires
        at + count * T::width_spec() <= b@.len(),
    ensures
        r@ == Seq::new(count as nat, |i: int| item_at::<T>(b@, at as int, i)),
{
    let width: usize = T::width();
    let total: usize = b.len();
    let mut out: Vec<T> = Vec::new();
    let mut pos: usize = at;
    let mut i: usize = 0;
    while i < count
        invariant
            i <= count,
            width == T::width_spec(),
            2 <= width <= 8,
            total == b@.len(),
            pos == at + i * width,
            at + count * width <= total,
            out@.len() == i,
            forall|k: int| 0 <= k < i ==> #[trigger] out@[k] == item_at::<T>(b@, at as int, k),
        decreases count - i,
    {
        proof {
            assert((i + 1) * width <= count * width) by (nonlinear_arith)
                requires
                    i + 1 <= count,
            ;
            assert((i + 1) * width == i * width + width) by (nonlinear_arith);
        }
        let v: u64 = read_le(b, pos, width);
        out.push(T::of(v));
        pos = pos + width;
        i = i + 1;
    }
    assert(out@ =~= Seq::new(count as nat, |i: int| item_at::<T>(b@, at as int, i)));
    out
}

/// Reads an array out of the bytes of a file.
pub fn load_npy_memmap<T: Element>(bytes: &[u8], expected_descr: &str, expected_ndim: usize) -> (r: Result<
    NpyMemmap<T>,
    NpyError,
>)
    ensures
        match r {
            Ok(a) => array_in::<T>(bytes@, expected_descr@, expected_ndim as nat) == Ok::<
                (Seq<T>, Seq<usize>),
                NpyError,
            >((a.items(), a.extents())),
            Err(e) => array_in::<T>(bytes@, expected_descr@, expected_ndim as nat) == Err::<
                (Seq<T>, Seq<usize>),
                NpyError,
            >(e),
        },
{
    let (start, len) = match find_header(bytes) {
        Err(e) => return Err(e),
        Ok(p) => p,
    };
    if bytes.len() - start < len {
        return Err(NpyError::TruncatedHeader);
    }
    let at: usize = start + len;
    let text = match utf8_text(vstd::slice::slice_subrange(bytes, start, at)) {
        None => return Err(NpyError::HeaderNotUtf8),
        Some(t) => t,
    };
    let header = match parse_header_dict(text.as_str()) {
        Err(e) => return Err(e),
        Ok(h) => h,
    };
    if header.fortran_order {
        return Err(NpyError::FortranOrder);
    }
    if !chars::same_text(header.descr.as_str(), expected_descr) {
        return Err(NpyError::DtypeMismatch);
    }
    if header.shape.len() != expected_ndim {
        return Err(NpyError::NdimMismatch);
    }
    let count: usize = product(&header.shape);
    let width: usize = T::width();
    if at % width != 0 {
        return Err(NpyError::Misaligned);
    }
    let size: Option<usize> = count.checked_mul(width);
    let byte_len: usize = match size {
        None => return Err(NpyError::SizeOverflow),
        Some(n) => n,
    };
    if bytes.len() - at < byte_len {
        return Err(NpyError::DataTruncated);
    }
    Ok(NpyMemmap { values: read_items::<T>(bytes, at, count), shape: header.shape })
}

// ---------------------------------------------------------------------------
// Laws

/// The items lie one behind the other, each with its lowest byte first.
pub proof fn law_items_are_little_endian(b: Seq<u8>, at: int, i: int)
    requires
        0 <= at,
        0 <= i,
    ensures
        at + 2 * i + 2 <= b.len() ==> item_at::<u16>(b, at, i) == b[at + 2 * i] + 256 * b[at + 2 * i + 1],
        at + 4 * i + 4 <= b.len() ==> item_at::<u32>(b, at, i) == b[at + 4 * i] + 256 * b[at + 4 * i + 1] + 0x1_0000 * b[at
            + 4 * i + 2] + 0x100_0000 * b[at + 4 * i + 3],
{
    reveal_with_fuel(le_value, 5);
    let t = b.subrange(at + i * 2, at + (i + 1) * 2);
    if at + 2 * i + 2 <= b.len() {
        assert(t.skip(1).skip(1).len() == 0);
        assert(le_value(t) == t[0] as nat + 256 * le_value(t.skip(1)));
        assert(le_value(t.skip(1)) == t[1] as nat);
    }
    let f = b.subrange(at + i * 4, at + (i + 1) * 4);
    if at + 4 * i + 4 <= b.len() {
        let f1 = f.skip(1);
        let f2 = f1.skip(1);
        let f3 = f2.skip(1);
        assert(f3.skip(1).len() == 0);
        assert(le_value(f3) == f[3] as nat);
        assert(le_value(f2) == f[2] as nat + 256 * f[3] as nat);
        assert(le_value(f1) == f[1] as nat + 256 * le_value(f2));
        assert(le_value(f) == f[0] as nat + 256 * le_value(f1));
    }
}

/// An array is read only from a file that begins as such files do, that names the wanted
/// type, lies in rows, has the wanted extents, and holds all its items.
pub proof fn law_arrays_are_whole<T: Element>(b: Seq<u8>, descr: Seq<char>, ndim: nat)
    requires
        array_in::<T>(b, descr, ndim) is Ok,
    ensures
        ({
            let (items, shape) = array_in::<T>(b, descr, ndim)->Ok_0;
            let (h, at) = header_text(b)->Ok_0;
            &&& b.take(6) == seq![0x93u8, 0x4e, 0x55, 0x4d, 0x50, 0x59]
            &&& (b[6] == 1 || b[6] == 2) && b[7] == 0
            &&& descr_of(h) == Ok::<Seq<char>, NpyError>(descr)
            &&& fortran_of(h) == Ok::<bool, NpyError>(false)
            &&& shape_of(h) == Ok::<Seq<usize>, NpyError>(shape)
            &&& shape.len() == ndim
            &&& items.len() == product_spec(shape)
            &&& at as int % (T::width_spec() as int) == 0
            &&& at + items.len() * T::width_spec() <= b.len()
            &&& forall|i: int|
                0 <= i < items.len() ==> #[trigger] items[i] == T::of_spec(
                    le_value(b.subrange(at + i * T::width_spec(), at + (i + 1) * T::width_spec())),
                )
        }),
{
}

/// The header follows its length, which has two bytes in the first version of the format
/// and four in the second.
pub proof fn law_headers_follow_their_length(b: Seq<u8>)
    requires
        b.len() >= 12,
        b.take(6) == seq![0x93u8, 0x4e, 0x55, 0x4d, 0x50, 0x59],
        b[7] == 0,
    ensures
        b[6] == 1 ==> header_place(b) == Ok::<(nat, nat), NpyError>((10, (b[8] + 256 * b[9]) as nat)),
        b[6] == 2 ==> header_place(b) == Ok::<(nat, nat), NpyError>(
            (12, (b[8] + 256 * b[9] + 0x1_0000 * b[10] + 0x100_0000 * b[11]) as nat),
        ),
        b[6] != 1 && b[6] != 2 ==> header_place(b) is Err,
{
    reveal_with_fuel(le_value, 5);
    let t = b.subrange(8, 10);
    assert(t.skip(1).skip(1).len() == 0);
    assert(le_value(t.skip(1)) == t[1] as nat);
    let f = b.subrange(8, 12);
    let f1 = f.skip(1);
    let f2 = f1.skip(1);
    let f3 = f2.skip(1);
    assert(f3.skip(1).len() == 0);
    assert(le_value(f3) == f[3] as nat);
    assert(le_value(f2) == f[2] as nat + 256 * f[3] as nat);
    assert(le_value(f1) == f[1] as nat + 256 * le_value(f2));
    assert(le_value(f) == f[0] as nat + 256 * le_value(f1));
}

/// The type is the text in quotes behind its key.
pub proof fn law_type_stands_in_quotes(gap: Seq<char>, descr: Seq<char>, rest: Seq<char>)
    requires
        forall|i: int| 0 <= i < gap.len() ==> #[trigger] gap[i] != '\'',
        forall|i: int| 0 <= i < descr.len() ==> #[trigger] descr[i] != '\'',
    ensures
        descr_of("'descr'"@ + gap + seq!['\''] + descr + seq!['\''] + rest) == Ok::<Seq<char>, NpyError>(descr),
{
    let key = "'descr'"@;
    let h = key + gap + seq!['\''] + descr + seq!['\''] + rest;
    let tail = descr + seq!['\''] + rest;
    assert(h.take(key.len() as int) =~= key);
    assert(chars::starts_with(h, key));
    assert(h.skip(key.len() as int) =~= gap + seq!['\''] + tail);
    lemma_first_char(gap, '\'', tail);
    lemma_first_char(descr, '\'', rest);
    let behind = gap + seq!['\''] + tail;
    assert(behind.skip(gap.len() as int + 1) =~= tail);
    assert(tail.take(descr.len() as int) =~= descr);
}

proof fn lemma_first_char(a: Seq<char>, c: char, b: Seq<char>)
    requires
        forall|i: int| 0 <= i < a.len() ==> #[trigger] a[i] != c,
    ensures
        chars::index_of_char(a + seq![c] + b, c) == Some(a.len()),
{
    let s = a + seq![c] + b;
    chars::lemma_index_of_char(s, c);
    assert(s[a.len() as int] == c);
    match chars::index_of_char(s, c) {
        None => {},
        Some(k) => {
            if k < a.len() {
                assert(s[k as int] == a[k as int]);
            }
        },
    }
}

/// The extents are the numbers in brackets behind their key, with commas between them.
pub proof fn law_extents_stand_in_brackets(gap: Seq<char>, inside: Seq<char>, rest: Seq<char>)
    requires
        forall|i: int| 0 <= i < gap.len() ==> #[trigger] gap[i] != '(',
        forall|i: int| 0 <= i < inside.len() ==> #[trigger] inside[i] != ')',
    ensures
        ({
            let h = "'shape'"@ + gap + seq!['('] + inside + seq![')'] + rest;
            &&& chars::trimmed(inside).len() == 0 ==> shape_of(h) == Ok::<Seq<usize>, NpyError>(Seq::empty())
            &&& chars::trimmed(inside).len() > 0 ==> shape_of(h) == numbers_in(
                chars::split_on(chars::trimmed(inside), ','),
            )
        }),
{
    let key = "'shape'"@;
    let h = key + gap + seq!['('] + inside + seq![')'] + rest;
    let tail = inside + seq![')'] + rest;
    assert(h.take(key.len() as int) =~= key);
    assert(chars::starts_with(h, key));
    assert(h.skip(key.len() as int) =~= gap + seq!['('] + tail);
    lemma_first_char(gap, '(', tail);
    lemma_first_char(inside, ')', rest);
    let behind = gap + seq!['('] + tail;
    assert(behind.skip(gap.len() as int + 1) =~= tail);
    assert(tail.take(inside.len() as int) =~= inside);
}

/// The order is told by a word behind its key.
pub proof fn law_order_is_told_by_a_word(gap: Seq<char>, value: Seq<char>)
    requires
        forall|i: int| 0 <= i < gap.len() ==> #[trigger] gap[i] != ':',
    ensures
        ({
            let r = fortran_of("'fortran_order'"@ + gap + seq![':'] + value);
            let word = chars::trim_start(value);
            &&& r == Ok::<bool, NpyError>(true) <==> chars::starts_with(word, "True"@)
            &&& r == Ok::<bool, NpyError>(false) <==> chars::starts_with(word, "False"@)
        }),
{
    reveal_strlit("True");
    reveal_strlit("False");
    let key = "'fortran_order'"@;
    let h = key + gap + seq![':'] + value;
    assert(h.take(key.len() as int) =~= key);
    assert(chars::starts_with(h, key));
    assert(h.skip(key.len() as int) =~= gap + seq![':'] + value);
    lemma_first_char(gap, ':', value);
    let behind = gap + seq![':'] + value;
    assert(behind.skip(gap.len() as int + 1) =~= value);
    let word = chars::trim_start(value);
    if chars::starts_with(word, "True"@) && chars::starts_with(word, "False"@) {
        assert(word[0] == word.take(4)[0]);
        assert(word[0] == word.take(5)[0]);
    }
}

/// Numbers in decimal are read as these numbers.
pub proof fn law_extents_are_spelled(shape: Seq<usize>)
    ensures
        numbers_in(shape.map_values(|n: usize| chars::decimal(n as nat))) == Ok::<Seq<usize>, NpyError>(shape),
    decreases shape.len(),
{
    let f = |n: usize| chars::decimal(n as nat);
    let parts = shape.map_values(f);
    if shape.len() > 0 {
        law_extents_are_spelled(shape.drop_last());
        assert(parts.drop_last() =~= shape.drop_last().map_values(f));
        let n = shape.last() as nat;
        chars::law_decimal_spells_the_number(n);
        lemma_decimal_has_no_space(n);
        chars::lemma_trimmed_stays(chars::decimal(n));
        assert(parts.last() == chars::decimal(n));
        assert(shape.drop_last().push(shape.last()) =~= shape);
    } else {
        assert(shape =~= Seq::empty());
    }
}

proof fn lemma_decimal_has_no_space(n: nat)
    ensures
        chars::decimal(n).len() > 0,
        '0' <= chars::decimal(n)[0] <= '9',
        '0' <= chars::decimal(n).last() <= '9',
    decreases n,
{
    if n >= 10 {
        lemma_decimal_has_no_space(n / 10);
        assert(chars::decimal(n)[0] == chars::decimal(n / 10)[0]);
    }
}

/// An array has as many items as its extents multiplied, as far as that fits.
pub proof fn law_extents_multiply(shape: Seq<usize>, n: usize)
    ensures
        product_spec(Seq::empty()) == 1,
        product_spec(shape) * n <= usize::MAX ==> product_spec(shape.push(n)) == product_spec(shape) * n,
        product_spec(shape) * n > usize::MAX ==> product_spec(shape.push(n)) == usize::MAX,
{
    assert(shape.push(n).drop_last() =~= shape);
}

} // verus!
