//! A reader for the safetensors format that copies nothing.
//!
//! A file is a length, a JSON header of that length, and raw data. Only what the weights need is
//! read: 32-bit floats with integer shapes and offsets. A tensor is looked up by scanning the
//! header for its name.
use crate::act::Error;
use vstd::prelude::*;
use vstd::slice::slice_subrange;

verus! {

pub const MAX_DIMS: usize = 4;

pub const QUOTE: u8 = 0x22;

pub const COLON: u8 = 0x3a;

pub const COMMA: u8 = 0x2c;

pub const OPEN_BRACE: u8 = 0x7b;

pub const CLOSE_BRACE: u8 = 0x7d;

pub const OPEN_BRACKET: u8 = 0x5b;

pub const CLOSE_BRACKET: u8 = 0x5d;

pub const BACKSLASH: u8 = 0x5c;

/// A file whose frame is sound.
pub struct SafeTensors<'a> {
    pub file: &'a [u8],
    pub header: &'a [u8],
    pub data_start: usize,
}

/// The data of one tensor inside the file, and its shape.
#[derive(Clone, Copy)]
pub struct Tensor<'a> {
    pub bytes: &'a [u8],
    /// Where the data starts in the file.
    pub offset: usize,
    pub shape: [usize; 4],
    pub rank: usize,
}

/// Space, tab, line feed, form feed or carriage return.
pub open spec fn is_white(b: u8) -> bool {
    b == 0x20 || b == 0x09 || b == 0x0a || b == 0x0c || b == 0x0d
}

/// The bytes without white space at the end.
pub open spec fn trimmed(bytes: Seq<u8>) -> Seq<u8>
    decreases bytes.len(),
{
    if bytes.len() > 0 && is_white(bytes.last()) {
        trimmed(bytes.drop_last())
    } else {
        bytes
    }
}

/// The length of the header that the first eight bytes give, low byte first.
pub open spec fn header_len(file: Seq<u8>) -> int {
    crate::boot::elf::number(file, 0, 8)
}

/// The header of a file with a sound frame: the data starts at a multiple of eight inside the
/// file, and the header is one pair of braces.
pub open spec fn header_of(file: Seq<u8>) -> Option<Seq<u8>> {
    let start = 8 + header_len(file);
    if file.len() < 8 || header_len(file) < 2 || start > file.len() || start % 8 != 0 {
        None
    } else {
        let header = trimmed(file.subrange(8, start));
        if header.len() > 0 && header[0] == OPEN_BRACE && header.last() == CLOSE_BRACE {
            Some(header)
        } else {
            None
        }
    }
}

/// The first place of `needle`, at `from` or later.
pub open spec fn place(bytes: Seq<u8>, needle: u8, from: int) -> Option<int>
    decreases bytes.len() - from,
{
    if from < 0 || from >= bytes.len() {
        None
    } else if bytes[from] == needle {
        Some(from)
    } else {
        place(bytes, needle, from + 1)
    }
}

pub open spec fn is_space(b: u8) -> bool {
    b == 0x20 || b == 0x0a || b == 0x0d || b == 0x09
}

/// The first place from `from` on that holds no space.
pub open spec fn after_spaces(bytes: Seq<u8>, from: int) -> int
    decreases bytes.len() - from,
{
    if 0 <= from < bytes.len() && is_space(bytes[from]) {
        after_spaces(bytes, from + 1)
    } else {
        from
    }
}

/// Where the brace that is open at depth `depth` closes, from `i` on. Braces in strings do not
/// count.
pub open spec fn closing(bytes: Seq<u8>, i: int, depth: int, in_string: bool) -> Option<int>
    decreases bytes.len() - i,
{
    if i < 0 || i >= bytes.len() {
        None
    } else if bytes[i] == QUOTE && (i == 0 || bytes[i - 1] != BACKSLASH) {
        closing(bytes, i + 1, depth, !in_string)
    } else if bytes[i] == OPEN_BRACE && !in_string {
        closing(bytes, i + 1, depth + 1, in_string)
    } else if bytes[i] == CLOSE_BRACE && !in_string {
        if depth <= 0 {
            None
        } else if depth == 1 {
            Some(i)
        } else {
            closing(bytes, i + 1, depth - 1, in_string)
        }
    } else {
        closing(bytes, i + 1, depth, in_string)
    }
}

/// The object that the first key `name` from `cursor` on has for its value: its first place and
/// the place behind it. A key is a quoted text before a colon.
pub open spec fn object_of(header: Seq<u8>, name: Seq<u8>, cursor: int) -> Result<
    (int, int),
    Error,
>
    decreases header.len() - cursor,
{
    match place(header, QUOTE, cursor) {
        Some(quote) if 0 <= cursor <= quote => match place(header, QUOTE, quote + 1) {
            Some(end) if quote < end < header.len() => {
                let colon = after_spaces(header, end + 1);
                if colon >= header.len() || header[colon] != COLON || header.subrange(
                    quote + 1,
                    end,
                ) != name {
                    object_of(header, name, end + 1)
                } else {
                    let value = after_spaces(header, colon + 1);
                    if value >= header.len() || header[value] != OPEN_BRACE {
                        Err(Error::InvalidSafetensors)
                    } else {
                        match closing(header, value, 0, false) {
                            Some(last) => Ok((value, last + 1)),
                            None => Err(Error::InvalidSafetensors),
                        }
                    }
                }
            },
            _ => Err(Error::InvalidSafetensors),
        },
        _ => Err(Error::TensorNotFound),
    }
}

/// Where the value of the first field `field` from `cursor` on begins.
pub open spec fn value_of(object: Seq<u8>, field: Seq<u8>, cursor: int) -> Option<int>
    decreases object.len() - cursor,
{
    match place(object, QUOTE, cursor) {
        Some(quote) if 0 <= cursor <= quote => match place(object, QUOTE, quote + 1) {
            Some(end) if quote < end < object.len() => if object.subrange(quote + 1, end) != field {
                value_of(object, field, end + 1)
            } else {
                let colon = after_spaces(object, end + 1);
                if colon < object.len() && object[colon] == COLON {
                    Some(after_spaces(object, colon + 1))
                } else {
                    None
                }
            },
            _ => None,
        },
        _ => None,
    }
}

/// The text that a field has for its value.
pub open spec fn string_of(object: Seq<u8>, field: Seq<u8>) -> Option<Seq<u8>> {
    match value_of(object, field, 0) {
        Some(value) if value < object.len() && object[value] == QUOTE => match place(
            object,
            QUOTE,
            value + 1,
        ) {
            Some(end) => Some(object.subrange(value + 1, end)),
            None => None,
        },
        _ => None,
    }
}

pub open spec fn is_digit(b: u8) -> bool {
    0x30 <= b <= 0x39
}

/// The decimal number from `i` on, after `value`, and the place behind it; none if it does not
/// fit.
pub open spec fn decimal(bytes: Seq<u8>, i: int, value: int) -> Option<(int, int)>
    decreases bytes.len() - i,
{
    if 0 <= i < bytes.len() && is_digit(bytes[i]) {
        let more = value * 10 + (bytes[i] - 0x30);
        if more > usize::MAX {
            None
        } else {
            decimal(bytes, i + 1, more)
        }
    } else {
        Some((value, i))
    }
}

/// The numbers of an array, from `cursor` on, after those in `list`. At most `room` numbers are
/// taken. A comma may stand before the closing bracket.
pub open spec fn numbers(object: Seq<u8>, cursor: int, list: Seq<int>, room: int) -> Result<
    Seq<int>,
    Error,
>
    decreases object.len() - cursor,
{
    let at = after_spaces(object, cursor);
    if cursor < 0 || at < cursor || at >= object.len() {
        Err(Error::InvalidSafetensors)
    } else if object[at] == CLOSE_BRACKET {
        Ok(list)
    } else if list.len() >= room {
        Err(Error::ShapeMismatch)
    } else {
        match decimal(object, at, 0) {
            Some((value, end)) if end > at => {
                let next = after_spaces(object, end);
                if next < end || next >= object.len() {
                    Err(Error::InvalidSafetensors)
                } else if object[next] == COMMA {
                    numbers(object, next + 1, list.push(value), room)
                } else if object[next] == CLOSE_BRACKET {
                    Ok(list.push(value))
                } else {
                    Err(Error::InvalidSafetensors)
                }
            },
            _ => Err(Error::InvalidSafetensors),
        }
    }
}

/// The array that a field has for its value.
pub open spec fn array_of(object: Seq<u8>, field: Seq<u8>, room: int) -> Result<Seq<int>, Error> {
    match value_of(object, field, 0) {
        Some(value) if value < object.len() && object[value] == OPEN_BRACKET => numbers(
            object,
            value + 1,
            seq![],
            room,
        ),
        _ => Err(Error::InvalidSafetensors),
    }
}

/// The product of the first `k` numbers; none if one on the way does not fit.
pub open spec fn product(list: Seq<int>, k: int) -> Option<int>
    decreases k,
{
    if k <= 0 {
        Some(1)
    } else {
        match product(list, k - 1) {
            Some(before) if before * list[k - 1] <= usize::MAX => Some(before * list[k - 1]),
            _ => None,
        }
    }
}

/// Place and shape of a tensor in a file.
#[verifier::ext_equal]
pub struct TensorView {
    pub start: int,
    pub end: int,
    pub shape: Seq<int>,
}

/// The tensor that an object of the header describes. The data starts at `data_start`; there are
/// `len` bytes in the file.
pub open spec fn described(object: Seq<u8>, data_start: int, len: int) -> Result<
    TensorView,
    Error,
> {
    if string_of(object, text("dtype")) is None {
        Err(Error::InvalidSafetensors)
    } else if string_of(object, text("dtype")) != Some(text("F32")) {
        Err(Error::UnsupportedDtype)
    } else {
        match array_of(object, text("shape"), MAX_DIMS as int) {
            Err(error) => Err(error),
            Ok(shape) => match array_of(object, text("data_offsets"), 2) {
                Err(error) => Err(error),
                Ok(offsets) => {
                    let start = data_start + offsets[0];
                    let end = data_start + offsets[1];
                    if offsets.len() != 2 || offsets[0] > offsets[1] || end > len {
                        Err(Error::InvalidSafetensors)
                    } else {
                        match product(shape, shape.len() as int) {
                            Some(elements) if elements * 4 <= usize::MAX => if end - start
                                != elements * 4 {
                                Err(Error::ShapeMismatch)
                            } else {
                                Ok(TensorView { start, end, shape })
                            },
                            _ => Err(Error::InvalidSafetensors),
                        }
                    }
                },
            },
        }
    }
}

pub open spec fn text(s: &str) -> Seq<u8> {
    vstd::utf8::encode_utf8(s@)
}

/// The tensor of this name in a file.
pub open spec fn tensor_in(file: Seq<u8>, name: Seq<u8>) -> Result<TensorView, Error> {
    match header_of(file) {
        None => Err(Error::InvalidSafetensors),
        Some(header) => match object_of(header, name, 0) {
            Err(error) => Err(error),
            Ok((start, end)) => described(
                header.subrange(start, end),
                8 + header_len(file),
                file.len() as int,
            ),
        },
    }
}

impl<'a> View for Tensor<'a> {
    type V = TensorView;

    open spec fn view(&self) -> TensorView {
        TensorView {
            start: self.offset as int,
            end: self.offset + self.bytes@.len(),
            shape: self.shape@.take(self.rank as int).map_values(|n: usize| n as int),
        }
    }
}

impl<'a> SafeTensors<'a> {
    /// The header is the file's own.
    pub open spec fn wf(&self) -> bool {
        header_of(self.file@) == Some(self.header@) && self.data_start == 8 + header_len(
            self.file@,
        )
    }

    /// The tensor of this name.
    pub open spec fn tensor_of(&self, name: Seq<u8>) -> Result<TensorView, Error> {
        tensor_in(self.file@, name)
    }
}

fn find_byte(bytes: &[u8], needle: u8, from: usize) -> (r: Option<usize>)
    ensures
        match r {
            Some(i) => place(bytes@, needle, from as int) == Some(i as int) && from <= i
                < bytes@.len(),
            None => place(bytes@, needle, from as int) is None,
        },
{
    let mut i: usize = from;
    while i < bytes.len()
        invariant
            from <= i,
            place(bytes@, needle, from as int) == place(bytes@, needle, i as int),
        decreases bytes@.len() - i,
    {
        if bytes[i] == needle {
            return Some(i);
        }
        i = i + 1;
    }
    None
}

fn skip_spaces(bytes: &[u8], from: usize) -> (r: usize)
    ensures
        r == after_spaces(bytes@, from as int),
        from <= r,
        from <= bytes@.len() ==> r <= bytes@.len(),
{
    let mut i: usize = from;
    while i < bytes.len() && (bytes[i] == 0x20 || bytes[i] == 0x0a || bytes[i] == 0x0d || bytes[i]
        == 0x09)
        invariant
            from <= i,
            from <= bytes@.len() ==> i <= bytes@.len(),
            after_spaces(bytes@, from as int) == after_spaces(bytes@, i as int),
        decreases bytes@.len() - i,
    {
        i = i + 1;
    }
    i
}

fn same(a: &[u8], b: &[u8]) -> (r: bool)
    ensures
        r == (a@ == b@),
{
    if a.len() != b.len() {
        return false;
    }
    let mut i: usize = 0;
    while i < a.len()
        invariant
            i <= a@.len(),
            a@.len() == b@.len(),
            forall|j: int| 0 <= j < i ==> a@[j] == b@[j],
        decreases a@.len() - i,
    {
        if a[i] != b[i] {
            assert(a@[i as int] != b@[i as int]);
            return false;
        }
        i = i + 1;
    }
    assert(a@ =~= b@);
    true
}

fn matching_brace(bytes: &[u8], start: usize) -> (r: Option<usize>)
    ensures
        match r {
            Some(i) => closing(bytes@, start as int, 0, false) == Some(i as int) && start <= i
                < bytes@.len(),
            None => closing(bytes@, start as int, 0, false) is None,
        },
{
    let mut depth: usize = 0;
    let mut i: usize = start;
    let mut in_string: bool = false;
    while i < bytes.len()
        invariant
            start <= i,
            depth <= i - start,
            closing(bytes@, start as int, 0, false) == closing(
                bytes@,
                i as int,
                depth as int,
                in_string,
            ),
        decreases bytes@.len() - i,
    {
        let b: u8 = bytes[i];
        if b == QUOTE && (i == 0 || bytes[i - 1] != BACKSLASH) {
            in_string = !in_string;
        } else if b == OPEN_BRACE && !in_string {
            depth = depth + 1;
        } else if b == CLOSE_BRACE && !in_string {
            if depth == 0 {
                return None;
            }
            if depth == 1 {
                return Some(i);
            }
            depth = depth - 1;
        }
        i = i + 1;
    }
    None
}

fn find_tensor_object<'a>(header: &'a [u8], name: &[u8]) -> (r: Result<&'a [u8], Error>)
    ensures
        match r {
            Ok(object) => object_of(header@, name@, 0) matches Ok(span) && object@
                == header@.subrange(span.0, span.1),
            Err(error) => object_of(header@, name@, 0) == Err::<(int, int), Error>(error),
        },
{
    let len: usize = header.len();
    let mut cursor: usize = 0;
    loop
        invariant
            cursor <= len,
            len == header@.len(),
            object_of(header@, name@, 0) == object_of(header@, name@, cursor as int),
        decreases header@.len() - cursor,
    {
        let quote: usize = match find_byte(header, QUOTE, cursor) {
            None => {
                return Err(Error::TensorNotFound);
            },
            Some(quote) => quote,
        };
        let end: usize = match find_byte(header, QUOTE, quote + 1) {
            None => {
                return Err(Error::InvalidSafetensors);
            },
            Some(end) => end,
        };
        let colon: usize = skip_spaces(header, end + 1);
        if colon < header.len() && header[colon] == COLON && same(
            slice_subrange(header, quote + 1, end),
            name,
        ) {
            let value: usize = skip_spaces(header, colon + 1);
            if value >= header.len() || header[value] != OPEN_BRACE {
                return Err(Error::InvalidSafetensors);
            }
            return match matching_brace(header, value) {
                None => Err(Error::InvalidSafetensors),
                Some(last) => Ok(slice_subrange(header, value, last + 1)),
            };
        }
        cursor = end + 1;
    }
}

fn find_field_value(object: &[u8], field: &[u8]) -> (r: Option<usize>)
    ensures
        match r {
            Some(value) => value_of(object@, field@, 0) == Some(value as int) && value
                <= object@.len(),
            None => value_of(object@, field@, 0) is None,
        },
{
    let len: usize = object.len();
    let mut cursor: usize = 0;
    loop
        invariant
            cursor <= len,
            len == object@.len(),
            value_of(object@, field@, 0) == value_of(object@, field@, cursor as int),
        decreases object@.len() - cursor,
    {
        let quote: usize = match find_byte(object, QUOTE, cursor) {
            None => {
                return None;
            },
            Some(quote) => quote,
        };
        let end: usize = match find_byte(object, QUOTE, quote + 1) {
            None => {
                return None;
            },
            Some(end) => end,
        };
        if same(slice_subrange(object, quote + 1, end), field) {
            let colon: usize = skip_spaces(object, end + 1);
            if colon < object.len() && object[colon] == COLON {
                return Some(skip_spaces(object, colon + 1));
            }
            return None;
        }
        cursor = end + 1;
    }
}

fn field_string<'a>(object: &'a [u8], field: &str) -> (r: Option<&'a [u8]>)
    ensures
        match r {
            Some(value) => string_of(object@, text(field)) == Some(value@),
            None => string_of(object@, text(field)) is None,
        },
{
    match find_field_value(object, field.as_bytes()) {
        None => None,
        Some(value) => {
            if value >= object.len() || object[value] != QUOTE {
                return None;
            }
            match find_byte(object, QUOTE, value + 1) {
                None => None,
                Some(end) => Some(slice_subrange(object, value + 1, end)),
            }
        },
    }
}

fn parse_usize(bytes: &[u8], from: usize) -> (r: Option<(usize, usize)>)
    requires
        from <= bytes@.len(),
    ensures
        match r {
            Some((value, end)) => decimal(bytes@, from as int, 0) == Some(
                (value as int, end as int),
            ) && from < end <= bytes@.len(),
            None => match decimal(bytes@, from as int, 0) {
                Some((_, end)) => end == from,
                None => true,
            },
        },
{
    let mut value: usize = 0;
    let mut i: usize = from;
    while i < bytes.len() && bytes[i] >= 0x30 && bytes[i] <= 0x39
        invariant
            from <= i <= bytes@.len(),
            decimal(bytes@, from as int, 0) == decimal(bytes@, i as int, value as int),
        decreases bytes@.len() - i,
    {
        let digit: usize = (bytes[i] - 0x30) as usize;
        value =
        match value.checked_mul(10) {
            None => {
                return None;
            },
            Some(tens) => match tens.checked_add(digit) {
                None => {
                    return None;
                },
                Some(more) => more,
            },
        };
        i = i + 1;
    }
    if i == from {
        return None;
    }
    Some((value, i))
}

pub open spec fn ints(list: Seq<usize>) -> Seq<int> {
    list.map_values(|n: usize| n as int)
}

fn field_usize_array(object: &[u8], field: &str, room: usize) -> (r: Result<Vec<usize>, Error>)
    ensures
        match r {
            Ok(list) => array_of(object@, text(field), room as int) == Ok::<Seq<int>, Error>(
                ints(list@),
            ) && list@.len() <= room,
            Err(error) => array_of(object@, text(field), room as int) == Err::<Seq<int>, Error>(
                error,
            ),
        },
{
    let value: usize = match find_field_value(object, field.as_bytes()) {
        None => {
            return Err(Error::InvalidSafetensors);
        },
        Some(value) => value,
    };
    if value >= object.len() || object[value] != OPEN_BRACKET {
        return Err(Error::InvalidSafetensors);
    }
    let mut cursor: usize = value + 1;
    let mut list: Vec<usize> = Vec::new();
    assert(ints(list@) =~= Seq::<int>::empty());
    loop
        invariant
            cursor <= object@.len(),
            list@.len() <= room,
            array_of(object@, text(field), room as int) == numbers(
                object@,
                cursor as int,
                ints(list@),
                room as int,
            ),
        decreases object@.len() - cursor,
    {
        let at: usize = skip_spaces(object, cursor);
        if at >= object.len() {
            return Err(Error::InvalidSafetensors);
        }
        if object[at] == CLOSE_BRACKET {
            return Ok(list);
        }
        if list.len() >= room {
            return Err(Error::ShapeMismatch);
        }
        let (number, end): (usize, usize) = match parse_usize(object, at) {
            None => {
                return Err(Error::InvalidSafetensors);
            },
            Some(parsed) => parsed,
        };
        let ghost before = list@;
        list.push(number);
        assert(ints(list@) =~= ints(before).push(number as int));
        let next: usize = skip_spaces(object, end);
        if next >= object.len() {
            return Err(Error::InvalidSafetensors);
        }
        if object[next] == CLOSE_BRACKET {
            return Ok(list);
        }
        if object[next] != COMMA {
            return Err(Error::InvalidSafetensors);
        }
        cursor = next + 1;
    }
}


impl<'a> SafeTensors<'a> {
    /// Checks the frame of a file.
    pub fn parse(file: &'a [u8]) -> (r: Result<SafeTensors<'a>, Error>)
        ensures
            match r {
                Ok(tensors) => tensors.wf() && tensors.file@ == file@,
                Err(error) => header_of(file@) is None && error == Error::InvalidSafetensors,
            },
    {
        let len: u64 = file.len() as u64;
        let header_len: u64 = match crate::boot::elf::read_u64(file, 0) {
            None => {
                return Err(Error::InvalidSafetensors);
            },
            Some(header_len) => header_len,
        };
        if header_len < 2 || header_len > len - 8 || header_len % 8 != 0 {
            return Err(Error::InvalidSafetensors);
        }
        let data_start: usize = (8 + header_len) as usize;
        let padded: &'a [u8] = slice_subrange(file, 8, data_start);
        let mut end: usize = padded.len();
        assert(padded@.take(end as int) =~= padded@);
        while end != 0 && (padded[end - 1] == 0x20 || padded[end - 1] == 0x09 || padded[end - 1]
            == 0x0a || padded[end - 1] == 0x0c || padded[end - 1] == 0x0d)
            invariant
                end <= padded@.len(),
                trimmed(padded@) == trimmed(padded@.take(end as int)),
            decreases end,
        {
            assert(padded@.take(end as int).drop_last() =~= padded@.take(end - 1));
            end = end - 1;
        }
        let header: &'a [u8] = slice_subrange(padded, 0, end);
        assert(header@ =~= padded@.take(end as int));
        if end == 0 || header[0] != OPEN_BRACE || header[end - 1] != CLOSE_BRACE {
            return Err(Error::InvalidSafetensors);
        }
        Ok(SafeTensors { file, header, data_start })
    }

    /// Looks a tensor up by its name.
    pub fn tensor(&self, name: &str) -> (r: Result<Tensor<'a>, Error>)
        requires
            self.wf(),
        ensures
            match r {
                Ok(tensor) => self.tensor_of(text(name)) == Ok::<TensorView, Error>(tensor@)
                    && tensor.wf() && tensor.bytes@ == self.file@.subrange(
                    tensor@.start,
                    tensor@.end,
                ),
                Err(error) => self.tensor_of(text(name)) == Err::<TensorView, Error>(error),
            },
    {
        self.tensor_named(name.as_bytes())
    }

    /// Looks a tensor up by the bytes of its name.
    pub fn tensor_named(&self, name: &[u8]) -> (r: Result<Tensor<'a>, Error>)
        requires
            self.wf(),
        ensures
            match r {
                Ok(tensor) => self.tensor_of(name@) == Ok::<TensorView, Error>(tensor@)
                    && tensor.wf() && tensor.bytes@ == self.file@.subrange(
                    tensor@.start,
                    tensor@.end,
                ),
                Err(error) => self.tensor_of(name@) == Err::<TensorView, Error>(error),
            },
    {
        let object: &'a [u8] = match find_tensor_object(self.header, name) {
            Err(error) => {
                return Err(error);
            },
            Ok(object) => object,
        };
        match field_string(object, "dtype") {
            None => {
                return Err(Error::InvalidSafetensors);
            },
            Some(dtype) => {
                if !same(dtype, "F32".as_bytes()) {
                    return Err(Error::UnsupportedDtype);
                }
            },
        }
        let list: Vec<usize> = match field_usize_array(object, "shape", MAX_DIMS) {
            Err(error) => {
                return Err(error);
            },
            Ok(list) => list,
        };
        let offsets: Vec<usize> = match field_usize_array(object, "data_offsets", 2) {
            Err(error) => {
                return Err(error);
            },
            Ok(offsets) => offsets,
        };
        if offsets.len() != 2 || offsets[0] > offsets[1] {
            return Err(Error::InvalidSafetensors);
        }
        let room: usize = self.file.len() - self.data_start;
        if offsets[1] > room {
            return Err(Error::InvalidSafetensors);
        }
        let start: usize = self.data_start + offsets[0];
        let end: usize = self.data_start + offsets[1];
        let rank: usize = list.len();
        let mut shape: [usize; 4] = [0; 4];
        let mut k: usize = 0;
        while k < rank
            invariant
                k <= rank == list@.len() <= 4,
                forall|j: int| 0 <= j < k ==> shape@[j] == list@[j],
            decreases rank - k,
        {
            shape[k] = list[k];
            k = k + 1;
        }
        assert(shape@.take(rank as int).map_values(|n: usize| n as int) =~= ints(list@));
        let elements: usize = match product_of(&list) {
            None => {
                return Err(Error::InvalidSafetensors);
            },
            Some(elements) => elements,
        };
        match elements.checked_mul(4) {
            None => Err(Error::InvalidSafetensors),
            Some(bytes) => {
                if end - start != bytes {
                    return Err(Error::ShapeMismatch);
                }
                Ok(
                    Tensor {
                        bytes: slice_subrange(self.file, start, end),
                        offset: start,
                        shape,
                        rank,
                    },
                )
            },
        }
    }
}

fn product_of(list: &Vec<usize>) -> (r: Option<usize>)
    ensures
        match r {
            Some(elements) => product(ints(list@), list@.len() as int) == Some(elements as int),
            None => product(ints(list@), list@.len() as int) is None,
        },
{
    let mut elements: usize = 1;
    let mut k: usize = 0;
    while k < list.len()
        invariant
            k <= list@.len(),
            product(ints(list@), k as int) == Some(elements as int),
        decreases list@.len() - k,
    {
        assert(ints(list@)[k as int] == list@[k as int]);
        elements =
        match elements.checked_mul(list[k]) {
            None => {
                proof {
                    lemma_no_product(ints(list@), k + 1, list@.len() as int);
                }
                return None;
            },
            Some(elements) => elements,
        };
        k = k + 1;
    }
    Some(elements)
}

/// Once a product does not fit, no longer one does.
proof fn lemma_no_product(list: Seq<int>, k: int, n: int)
    requires
        0 <= k <= n,
        product(list, k) is None,
    ensures
        product(list, n) is None,
    decreases n - k,
{
    if k < n {
        lemma_no_product(list, k + 1, n);
    }
}

impl<'a> Tensor<'a> {
    /// At most four dimensions, and as many floats as they have room for.
    pub open spec fn wf(&self) -> bool {
        &&& self.rank <= 4
        &&& match product(self@.shape, self@.shape.len() as int) {
            Some(elements) => self.bytes@.len() == 4 * elements,
            None => false,
        }
    }

    pub fn shape(&self) -> (r: &[usize])
        requires
            self.wf(),
        ensures
            r@ == self.shape@.take(self.rank as int),
            ints(r@) == self@.shape,
    {
        let r: &[usize] = slice_subrange(self.shape.as_slice(), 0, self.rank);
        assert(r@ =~= self.shape@.take(self.rank as int));
        r
    }

    pub fn element_count(&self) -> (r: usize)
        requires
            self.wf(),
        ensures
            product(self@.shape, self@.shape.len() as int) == Some(r as int),
            self.bytes@.len() == 4 * r,
    {
        self.bytes.len() / 4
    }

    /// The bytes of the floats, low byte first, if the first of them is aligned in memory. The
    /// file is at `file_address`.
    pub fn f32_data(&self, file_address: usize) -> (r: Result<&'a [u8], Error>)
        ensures
            match r {
                Ok(bytes) => (file_address + self.offset) % 4 == 0 && bytes@ == self.bytes@,
                Err(error) => (file_address + self.offset) % 4 != 0 && error
                    == Error::InvalidSafetensors,
            },
    {
        if (file_address % 4 + self.offset % 4) % 4 != 0 {
            return Err(Error::InvalidSafetensors);
        }
        Ok(self.bytes)
    }
}

/// A tensor's data lies behind the header and inside the file, and holds four bytes for each
/// element of its shape.
pub proof fn law_tensor_inside_file(file: Seq<u8>, name: Seq<u8>)
    ensures
        match tensor_in(file, name) {
            Ok(tensor) => {
                &&& 8 + header_len(file) <= tensor.start <= tensor.end
                &&& tensor.end <= file.len()
                &&& tensor.shape.len() <= MAX_DIMS
                &&& product(tensor.shape, tensor.shape.len() as int) == Some(
                    (tensor.end - tensor.start) / 4,
                )
                &&& (tensor.end - tensor.start) % 4 == 0
            },
            Err(_) => true,
        },
{
    if header_of(file) is Some {
        match object_of(header_of(file)->0, name, 0) {
            Err(_) => {},
            Ok((start, end)) => {
                let object = (header_of(file)->0).subrange(start, end);
                lemma_numbers(object, text("data_offsets"), 2);
                lemma_numbers(object, text("shape"), MAX_DIMS as int);
            },
        }
    }
}

proof fn lemma_object_errors(header: Seq<u8>, name: Seq<u8>, cursor: int)
    ensures
        object_of(header, name, cursor) matches Err(error) ==> error == Error::TensorNotFound
            || error == Error::InvalidSafetensors,
    decreases header.len() - cursor,
{
    match place(header, QUOTE, cursor) {
        Some(quote) if 0 <= cursor <= quote => match place(header, QUOTE, quote + 1) {
            Some(end) if quote < end < header.len() => {
                lemma_object_errors(header, name, end + 1);
            },
            _ => {},
        },
        _ => {},
    }
}

/// What may be wrong with a tensor.
pub proof fn lemma_errors(file: Seq<u8>, name: Seq<u8>)
    ensures
        tensor_in(file, name) matches Err(error) ==> error == Error::TensorNotFound || error
            == Error::InvalidSafetensors || error == Error::UnsupportedDtype || error
            == Error::ShapeMismatch,
{
    if header_of(file) is Some {
        let header = header_of(file)->0;
        lemma_object_errors(header, name, 0);
        match object_of(header, name, 0) {
            Err(_) => {},
            Ok((start, end)) => {
                lemma_numbers(header.subrange(start, end), text("data_offsets"), 2);
                lemma_numbers(header.subrange(start, end), text("shape"), MAX_DIMS as int);
            },
        }
    }
}

proof fn lemma_decimal(bytes: Seq<u8>, i: int, value: int)
    requires
        value >= 0,
    ensures
        decimal(bytes, i, value) matches Some(parsed) ==> parsed.0 >= 0,
    decreases bytes.len() - i,
{
    if 0 <= i < bytes.len() && is_digit(bytes[i]) {
        lemma_decimal(bytes, i + 1, value * 10 + (bytes[i] - 0x30));
    }
}

/// The numbers of an array are not negative, and no more than there is room for.
proof fn lemma_numbers_from(object: Seq<u8>, cursor: int, list: Seq<int>, room: int)
    requires
        list.len() <= room,
        forall|j: int| 0 <= j < list.len() ==> list[j] >= 0,
    ensures
        match numbers(object, cursor, list, room) {
            Ok(r) => r.len() <= room && forall|j: int| 0 <= j < r.len() ==> r[j] >= 0,
            Err(error) => error == Error::InvalidSafetensors || error == Error::ShapeMismatch,
        },
    decreases object.len() - cursor,
{
    let at = after_spaces(object, cursor);
    lemma_decimal(object, at, 0);
    if cursor < 0 || at < cursor || at >= object.len() || object[at] == CLOSE_BRACKET || list.len()
        >= room {
    } else {
        match decimal(object, at, 0) {
            Some((value, end)) if end > at => {
                let next = after_spaces(object, end);
                if next < end || next >= object.len() {
                } else if object[next] == COMMA {
                    lemma_numbers_from(object, next + 1, list.push(value), room);
                }
            },
            _ => {},
        }
    }
}

proof fn lemma_numbers(object: Seq<u8>, field: Seq<u8>, room: int)
    requires
        room >= 0,
    ensures
        match array_of(object, field, room) {
            Ok(r) => r.len() <= room && forall|j: int| 0 <= j < r.len() ==> r[j] >= 0,
            Err(error) => error == Error::InvalidSafetensors || error == Error::ShapeMismatch,
        },
{
    match value_of(object, field, 0) {
        Some(value) => {
            lemma_numbers_from(object, value + 1, seq![], room);
        },
        None => {},
    }
}


/// The number that the digits from `i` up to `j` stand for.
pub open spec fn decimal_value(bytes: Seq<u8>, i: int, j: int) -> int
    decreases j - i,
{
    if j <= i {
        0
    } else {
        10 * decimal_value(bytes, i, j - 1) + (bytes[j - 1] - 0x30)
    }
}

/// A run of digits is read as the number that it stands for, up to the first byte that is none.
pub proof fn law_decimal_is_read(bytes: Seq<u8>, i: int, j: int)
    requires
        0 <= i <= j <= bytes.len(),
        forall|k: int| i <= k < j ==> 0x30 <= #[trigger] bytes[k] <= 0x39,
        j < bytes.len() ==> !(0x30 <= bytes[j] <= 0x39),
        decimal_value(bytes, i, j) <= usize::MAX,
    ensures
        decimal(bytes, i, 0) == Some((decimal_value(bytes, i, j), j)),
{
    lemma_decimal_so_far(bytes, i, j, j);
}

proof fn lemma_decimal_so_far(bytes: Seq<u8>, i: int, j: int, k: int)
    requires
        0 <= i <= k <= j <= bytes.len(),
        forall|n: int| i <= n < j ==> 0x30 <= #[trigger] bytes[n] <= 0x39,
        decimal_value(bytes, i, k) <= usize::MAX,
    ensures
        decimal(bytes, i, 0) == decimal(bytes, k, decimal_value(bytes, i, k)),
        0 <= decimal_value(bytes, i, k),
    decreases k - i,
{
    if i < k {
        let before = decimal_value(bytes, i, k - 1);
        assert(0x30 <= bytes[k - 1] <= 0x39);
        lemma_decimal_grows(bytes, i, j, k - 1);
        lemma_decimal_so_far(bytes, i, j, k - 1);
        assert(is_digit(bytes[k - 1]));
        assert(before * 10 + (bytes[k - 1] - 0x30) == decimal_value(bytes, i, k));
    }
}

proof fn lemma_decimal_grows(bytes: Seq<u8>, i: int, j: int, k: int)
    requires
        0 <= i <= k < j <= bytes.len(),
        forall|n: int| i <= n < j ==> 0x30 <= #[trigger] bytes[n] <= 0x39,
    ensures
        0 <= decimal_value(bytes, i, k) <= decimal_value(bytes, i, k + 1),
    decreases k - i,
{
    assert(0x30 <= bytes[k] <= 0x39);
    if i < k {
        lemma_decimal_grows(bytes, i, j, k - 1);
    }
}

/// Only white space is dropped, only at the end, and all of it.
pub proof fn law_only_white_is_trimmed(bytes: Seq<u8>)
    ensures
        trimmed(bytes).len() <= bytes.len(),
        trimmed(bytes) == bytes.take(trimmed(bytes).len() as int),
        trimmed(bytes).len() > 0 ==> !is_white(trimmed(bytes).last()),
        forall|i: int| trimmed(bytes).len() <= i < bytes.len() ==> is_white(#[trigger] bytes[i]),
    decreases bytes.len(),
{
    if bytes.len() > 0 && is_white(bytes.last()) {
        let rest = bytes.drop_last();
        law_only_white_is_trimmed(rest);
        let n = trimmed(rest).len() as int;
        assert(bytes.take(n) =~= rest.take(n));
        assert forall|i: int| n <= i < bytes.len() implies is_white(#[trigger] bytes[i]) by {
            if i < rest.len() {
                assert(rest[i] == bytes[i]);
            }
        }
    } else {
        assert(bytes.take(bytes.len() as int) =~= bytes);
    }
}

/// Two numbers with a comma between them, up to a closing bracket, are read as these two.
pub proof fn law_pair_is_read(object: Seq<u8>, at: int, comma: int, end: int)
    requires
        0 <= at < comma < end < object.len(),
        comma + 1 < end,
        object[comma] == COMMA,
        object[end] == CLOSE_BRACKET,
        forall|k: int| at <= k < comma ==> 0x30 <= #[trigger] object[k] <= 0x39,
        forall|k: int| comma < k < end ==> 0x30 <= #[trigger] object[k] <= 0x39,
        decimal_value(object, at, comma) <= usize::MAX,
        decimal_value(object, comma + 1, end) <= usize::MAX,
    ensures
        numbers(object, at, seq![], 2) == Ok::<Seq<int>, Error>(
            seq![decimal_value(object, at, comma), decimal_value(object, comma + 1, end)],
        ),
{
    let a = decimal_value(object, at, comma);
    let b = decimal_value(object, comma + 1, end);
    law_decimal_is_read(object, at, comma);
    law_decimal_is_read(object, comma + 1, end);
    assert(0x30 <= object[at] <= 0x39);
    assert(0x30 <= object[comma + 1] <= 0x39);
    assert(after_spaces(object, at) == at);
    assert(after_spaces(object, comma) == comma);
    assert(after_spaces(object, comma + 1) == comma + 1);
    assert(after_spaces(object, end) == end);
    assert(numbers(object, comma + 1, seq![a], 2) == Ok::<Seq<int>, Error>(seq![a].push(b)));
    assert(Seq::<int>::empty().push(a) =~= seq![a]);
    assert(seq![a].push(b) =~= seq![a, b]);
}

} // verus!
