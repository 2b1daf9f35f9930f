//! The byte format of a quiz, and the functions that write and read it.
//!
//! A quiz is laid out as:
//! - its cached length, one byte;
//! - the number of items, eight bytes little-endian;
//! - each item in order: its type code (1 true-or-false, 2 multiple choice,
//!   3 fill-in-the-blank), then its question, then its answer.
//!
//! A text is its UTF-8 byte count, eight bytes little-endian, then those bytes.
//! The type code is written explicitly, so the format does not depend on the order
//! in which `QuizItemType` declares its variants.
use vstd::bytes::{
    lemma_auto_spec_u64_to_from_le_bytes, spec_u64_from_le_bytes, spec_u64_to_le_bytes,
    u64_from_le_bytes, u64_to_le_bytes,
};
use vstd::prelude::*;
use vstd::slice::{slice_subrange, slice_to_vec};
use vstd::utf8::{decode_utf8, encode_utf8, valid_utf8};

use crate::quiz::{code_of_type, MAX_ITEMS, type_of_code, Quiz, QuizItem, QuizItemModel, QuizItemType};

verus! {

/// Why a byte buffer does not hold a quiz. Offsets count bytes from the buffer's start.
#[derive(Debug, Clone, Copy, PartialEq, Eq, Structural)]
pub enum DecodeError {
    /// The buffer ends inside the field that starts at this offset.
    Truncated(usize),
    /// An item carries this type code, which names no item type.
    UnknownVariant(u8),
    /// The text whose bytes start at this offset is not UTF-8.
    InvalidText(usize),
    /// The cached length (first) disagrees with the number of items (second).
    LengthMismatch(u8, u64),
    /// The quiz ends at this offset, before the buffer does.
    TrailingBytes(usize),
}

// ---------------------------------------------------------------------------
// The format, written

/// The bytes of a text: its UTF-8 byte count, then its UTF-8 bytes.
pub open spec fn text_bytes(s: Seq<char>) -> Seq<u8> {
    spec_u64_to_le_bytes(encode_utf8(s).len() as u64) + encode_utf8(s)
}

/// The bytes of one item: its type code, its question, its answer.
pub open spec fn item_bytes(it: QuizItemModel) -> Seq<u8> {
    seq![code_of_type(it.item_type)] + text_bytes(it.question) + text_bytes(it.answer)
}

/// The bytes of a sequence of items, one after another.
pub open spec fn items_bytes(items: Seq<QuizItemModel>) -> Seq<u8>
    decreases items.len(),
{
    if items.len() == 0 {
        Seq::empty()
    } else {
        items_bytes(items.drop_last()) + item_bytes(items.last())
    }
}

/// The bytes of a quiz with these items.
pub open spec fn quiz_bytes(items: Seq<QuizItemModel>) -> Seq<u8> {
    seq![items.len() as u8] + spec_u64_to_le_bytes(items.len() as u64) + items_bytes(items)
}

// ---------------------------------------------------------------------------
// The format, read

/// Reads a text at `pos`: what it holds, and where the next field starts.
pub open spec fn parse_text(b: Seq<u8>, pos: int) -> Result<(Seq<char>, int), DecodeError> {
    if b.len() < pos + 8 {
        Err(DecodeError::Truncated(pos as usize))
    } else {
        let n = spec_u64_from_le_bytes(b.subrange(pos, pos + 8));
        let start = pos + 8;
        if b.len() - start < n {
            Err(DecodeError::Truncated(start as usize))
        } else if !valid_utf8(b.subrange(start, start + n)) {
            Err(DecodeError::InvalidText(start as usize))
        } else {
            Ok((decode_utf8(b.subrange(start, start + n)), start + n))
        }
    }
}

/// Reads an item at `pos`: what it holds, and where the next field starts.
pub open spec fn parse_item(b: Seq<u8>, pos: int) -> Result<(QuizItemModel, int), DecodeError> {
    if b.len() <= pos {
        Err(DecodeError::Truncated(pos as usize))
    } else {
        match type_of_code(b[pos]) {
            None => Err(DecodeError::UnknownVariant(b[pos])),
            Some(t) => match parse_text(b, pos + 1) {
                Err(e) => Err(e),
                Ok((question, p)) => match parse_text(b, p) {
                    Err(e) => Err(e),
                    Ok((answer, p2)) => Ok(
                        (QuizItemModel { item_type: t, question, answer }, p2),
                    ),
                },
            },
        }
    }
}

/// Reads `n` items one after another from `pos`.
pub open spec fn parse_items(b: Seq<u8>, pos: int, n: nat) -> Result<
    (Seq<QuizItemModel>, int),
    DecodeError,
>
    decreases n,
{
    if n == 0 {
        Ok((Seq::empty(), pos))
    } else {
        match parse_items(b, pos, (n - 1) as nat) {
            Err(e) => Err(e),
            Ok((items, p)) => match parse_item(b, p) {
                Err(e) => Err(e),
                Ok((it, p2)) => Ok((items.push(it), p2)),
            },
        }
    }
}

/// Reads a quiz from the front of a buffer: its items and where the quiz ends, or why the
/// buffer does not start with one. Bytes after the quiz are not looked at.
pub open spec fn parse_quiz_prefix(b: Seq<u8>) -> Result<(Seq<QuizItemModel>, int), DecodeError> {
    if b.len() < 1 {
        Err(DecodeError::Truncated(0))
    } else if b.len() < 9 {
        Err(DecodeError::Truncated(1))
    } else {
        let length = b[0];
        let count = spec_u64_from_le_bytes(b.subrange(1, 9));
        if count != length as u64 {
            Err(DecodeError::LengthMismatch(length, count))
        } else {
            parse_items(b, 9, length as nat)
        }
    }
}

/// Reads a whole buffer as a quiz: its items, or why the buffer holds none.
pub open spec fn parse_quiz(b: Seq<u8>) -> Result<Seq<QuizItemModel>, DecodeError> {
    match parse_quiz_prefix(b) {
        Err(e) => Err(e),
        Ok((items, p)) => if p == b.len() {
            Ok(items)
        } else {
            Err(DecodeError::TrailingBytes(p as usize))
        },
    }
}

// ---------------------------------------------------------------------------
// Writing

/// Appends the bytes of a text.
fn write_text(out: &mut Vec<u8>, s: &String)
    ensures
        final(out)@ == old(out)@ + text_bytes(s@),
        text_fits(s@),
{
    let bytes = s.as_str().as_bytes();
    let n = bytes.len();
    let mut count = u64_to_le_bytes(n as u64);
    out.append(&mut count);
    let mut body = slice_to_vec(bytes);
    out.append(&mut body);
    assert(final(out)@ =~= old(out)@ + text_bytes(s@));
}

/// Appends the bytes of one item.
fn write_item(out: &mut Vec<u8>, item: &QuizItem)
    ensures
        final(out)@ == old(out)@ + item_bytes(item@),
        text_fits(item@.question),
        text_fits(item@.answer),
{
    out.push(item.get_type().code());
    write_text(out, item.get_question());
    write_text(out, item.get_answer());
    assert(final(out)@ =~= old(out)@ + item_bytes(item@));
}

/// Encodes a quiz: its cached length, its item count, then its items in order. `load`
/// reads the result back as the same quiz.
pub fn dump(data: &Quiz) -> (r: Vec<u8>)
    requires
        data.wf(),
    ensures
        r@ == quiz_bytes(data@),
        parse_quiz(r@) == Ok::<Seq<QuizItemModel>, DecodeError>(data@),
{
    let length = data.get_length();
    let mut out: Vec<u8> = Vec::new();
    out.push(length);
    let mut count = u64_to_le_bytes(length as u64);
    out.append(&mut count);
    let ghost head = out@;
    let mut i: usize = 0;
    while i < length as usize
        invariant
            data.wf(),
            length as nat == data@.len(),
            i <= length,
            head == seq![length] + spec_u64_to_le_bytes(length as u64),
            out@ == head + items_bytes(data@.take(i as int)),
            texts_fit(data@.take(i as int)),
        decreases length - i,
    {
        let item = data.get_quiz(i);
        match item {
            Some(item) => {
                write_item(&mut out, item);
                assert(data@.take(i + 1).drop_last() =~= data@.take(i as int));
                assert(out@ =~= head + items_bytes(data@.take(i + 1)));
                assert(texts_fit(data@.take(i + 1))) by {
                    assert forall|j: int| 0 <= j < i + 1 implies text_fits(
                        #[trigger] data@.take(i + 1)[j].question,
                    ) && text_fits(data@.take(i + 1)[j].answer) by {
                        if j < i {
                            assert(data@.take(i + 1)[j] == data@.take(i as int)[j]);
                        }
                    }
                }
            },
            None => {},
        }
        i = i + 1;
    }
    assert(data@.take(length as int) =~= data@);
    proof {
        lemma_round_trip(data@);
    }
    out
}

// ---------------------------------------------------------------------------
// Reading

/// Relies on `std::str::from_utf8`: it accepts exactly the UTF-8 encodings of character
/// sequences, and then returns the text that the bytes encode.
#[verifier::external_body]
fn str_from_utf8(b: &[u8]) -> (r: Option<&str>)
    ensures
        r matches Some(s) ==> encode_utf8(s@) == b@,
        (exists|c: Seq<char>| encode_utf8(c) == b@) ==> r is Some,
{
    std::str::from_utf8(b).ok()
}

/// Reads a text at `pos`.
fn read_text(b: &[u8], pos: usize) -> (r: Result<(String, usize), DecodeError>)
    requires
        pos <= b@.len(),
    ensures
        match r {
            Ok((s, p)) => p <= b@.len() && parse_text(b@, pos as int) == Ok::<
                (Seq<char>, int),
                DecodeError,
            >((s@, p as int)),
            Err(e) => parse_text(b@, pos as int) == Err::<(Seq<char>, int), DecodeError>(e),
        },
{
    if b.len() - pos < 8 {
        return Err(DecodeError::Truncated(pos));
    }
    let n = u64_from_le_bytes(slice_subrange(b, pos, pos + 8));
    let start = pos + 8;
    if n > (b.len() - start) as u64 {
        return Err(DecodeError::Truncated(start));
    }
    let end = start + n as usize;
    let bytes = slice_subrange(b, start, end);
    proof {
        if valid_utf8(bytes@) {
            vstd::utf8::decode_utf8_encode_utf8(bytes@);
        }
    }
    match str_from_utf8(bytes) {
        None => Err(DecodeError::InvalidText(start)),
        Some(s) => {
            proof {
                vstd::utf8::encode_utf8_valid_utf8(s@);
                vstd::utf8::encode_utf8_decode_utf8(s@);
            }
            Ok((s.to_owned(), end))
        },
    }
}

/// Reads an item at `pos`.
fn read_item(b: &[u8], pos: usize) -> (r: Result<(QuizItem, usize), DecodeError>)
    requires
        pos <= b@.len(),
    ensures
        match r {
            Ok((it, p)) => p <= b@.len() && parse_item(b@, pos as int) == Ok::<
                (QuizItemModel, int),
                DecodeError,
            >((it@, p as int)),
            Err(e) => parse_item(b@, pos as int) == Err::<(QuizItemModel, int), DecodeError>(e),
        },
{
    if pos == b.len() {
        return Err(DecodeError::Truncated(pos));
    }
    let code = b[pos];
    let t = match QuizItemType::from_code(code) {
        Ok(t) => t,
        Err(_) => {
            return Err(DecodeError::UnknownVariant(code));
        },
    };
    let (question, p) = match read_text(b, pos + 1) {
        Ok(v) => v,
        Err(e) => {
            return Err(e);
        },
    };
    let (answer, p2) = match read_text(b, p) {
        Ok(v) => v,
        Err(e) => {
            return Err(e);
        },
    };
    Ok((QuizItem::new(t, question, answer), p2))
}

/// Once reading some items fails, reading more of them fails the same way.
proof fn lemma_parse_items_error_persists(b: Seq<u8>, pos: int, k: nat, n: nat)
    requires
        k <= n,
        parse_items(b, pos, k) is Err,
    ensures
        parse_items(b, pos, n) == parse_items(b, pos, k),
    decreases n - k,
{
    if k < n {
        lemma_parse_items_error_persists(b, pos, k, (n - 1) as nat);
    }
}

/// Decodes a quiz from the front of a buffer, and returns it with the offset where it
/// ends; what follows is left alone. `parse_quiz_prefix` says with which error it fails.
pub fn load_prefix(b: &[u8]) -> (r: Result<(Quiz, usize), DecodeError>)
    ensures
        match r {
            Ok((q, end)) => q.wf() && parse_quiz_prefix(b@) == Ok::<
                (Seq<QuizItemModel>, int),
                DecodeError,
            >((q@, end as int)),
            Err(e) => parse_quiz_prefix(b@) == Err::<(Seq<QuizItemModel>, int), DecodeError>(e),
        },
        r matches Ok((q, end)) ==> end <= b@.len() && b@.subrange(0, end as int) == quiz_bytes(
            q@,
        ),
{
    if b.len() < 1 {
        return Err(DecodeError::Truncated(0));
    }
    if b.len() < 9 {
        return Err(DecodeError::Truncated(1));
    }
    let length = b[0];
    let count = u64_from_le_bytes(slice_subrange(b, 1, 9));
    if count != length as u64 {
        return Err(DecodeError::LengthMismatch(length, count));
    }
    let mut quiz = Quiz::new();
    let mut pos: usize = 9;
    let mut i: u8 = 0;
    while i < length
        invariant
            b@.len() >= 9,
            length == b@[0],
            spec_u64_from_le_bytes(b@.subrange(1, 9)) == length as u64,
            i <= length,
            pos <= b@.len(),
            quiz.wf(),
            quiz@.len() == i,
            parse_items(b@, 9, i as nat) == Ok::<(Seq<QuizItemModel>, int), DecodeError>(
                (quiz@, pos as int),
            ),
        decreases length - i,
    {
        match read_item(b, pos) {
            Ok((item, p)) => {
                let appended = quiz.add_quiz(item);
                assert(appended is Ok);
                pos = p;
            },
            Err(e) => {
                proof {
                    assert(parse_items(b@, 9, (i + 1) as nat) == Err::<
                        (Seq<QuizItemModel>, int),
                        DecodeError,
                    >(e));
                    lemma_parse_items_error_persists(b@, 9, (i + 1) as nat, length as nat);
                }
                return Err(e);
            },
        }
        i = i + 1;
    }
    proof {
        lemma_prefix_is_encoding(b@);
    }
    Ok((quiz, pos))
}

/// Decodes a quiz from a whole buffer. Succeeds exactly where the buffer holds the bytes
/// of a quiz, and nothing more; `parse_quiz` says with which error it fails otherwise.
pub fn load(b: &[u8]) -> (r: Result<Quiz, DecodeError>)
    ensures
        match r {
            Ok(q) => q.wf() && parse_quiz(b@) == Ok::<Seq<QuizItemModel>, DecodeError>(q@),
            Err(e) => parse_quiz(b@) == Err::<Seq<QuizItemModel>, DecodeError>(e),
        },
        r matches Ok(q) ==> b@ == quiz_bytes(q@),
{
    match load_prefix(b) {
        Err(e) => Err(e),
        Ok((quiz, end)) => {
            if end != b.len() {
                return Err(DecodeError::TrailingBytes(end));
            }
            assert(b@.subrange(0, end as int) =~= b@);
            Ok(quiz)
        },
    }
}

// ---------------------------------------------------------------------------
// Round trip

/// A text whose UTF-8 byte count the format can write: every `String` is one.
pub open spec fn text_fits(s: Seq<char>) -> bool {
    encode_utf8(s).len() <= u64::MAX
}

/// Every text of every item fits the format.
pub open spec fn texts_fit(items: Seq<QuizItemModel>) -> bool {
    forall|i: int|
        0 <= i < items.len() ==> text_fits(#[trigger] items[i].question) && text_fits(
            items[i].answer,
        )
}

/// Where the bytes of a text stand at `pos`, reading a text there gives it back.
proof fn lemma_parse_text_bytes(b: Seq<u8>, pos: int, s: Seq<char>)
    requires
        0 <= pos,
        text_fits(s),
        pos + text_bytes(s).len() <= b.len(),
        b.subrange(pos, pos + text_bytes(s).len()) == text_bytes(s),
    ensures
        parse_text(b, pos) == Ok::<(Seq<char>, int), DecodeError>(
            (s, pos + text_bytes(s).len()),
        ),
{
    let e = encode_utf8(s);
    let n = e.len() as u64;
    lemma_auto_spec_u64_to_from_le_bytes();
    let t = text_bytes(s);
    assert(t.subrange(0, 8) =~= spec_u64_to_le_bytes(n));
    assert(b.subrange(pos, pos + 8) =~= t.subrange(0, 8));
    assert(t.subrange(8, t.len() as int) =~= e);
    assert(b.subrange(pos + 8, pos + 8 + n) =~= t.subrange(8, t.len() as int));
    vstd::utf8::encode_utf8_valid_utf8(s);
    vstd::utf8::encode_utf8_decode_utf8(s);
}

/// Where the bytes of an item stand at `pos`, reading an item there gives it back.
proof fn lemma_parse_item_bytes(b: Seq<u8>, pos: int, it: QuizItemModel)
    requires
        0 <= pos,
        text_fits(it.question),
        text_fits(it.answer),
        pos + item_bytes(it).len() <= b.len(),
        b.subrange(pos, pos + item_bytes(it).len()) == item_bytes(it),
    ensures
        parse_item(b, pos) == Ok::<(QuizItemModel, int), DecodeError>(
            (it, pos + item_bytes(it).len()),
        ),
{
    let q = text_bytes(it.question);
    let a = text_bytes(it.answer);
    let ib = item_bytes(it);
    let ql = q.len() as int;
    let il = ib.len() as int;
    assert(b[pos] == ib[0]);
    assert(b.subrange(pos + 1, pos + 1 + ql) =~= ib.subrange(1, 1 + ql));
    assert(ib.subrange(1, 1 + ql) =~= q);
    lemma_parse_text_bytes(b, pos + 1, it.question);
    assert(b.subrange(pos + 1 + ql, pos + il) =~= ib.subrange(1 + ql, il));
    assert(ib.subrange(1 + ql, il) =~= a);
    lemma_parse_text_bytes(b, pos + 1 + ql, it.answer);
}

/// Where the bytes of a sequence of items stand at `pos`, reading that many items there
/// gives them back.
proof fn lemma_parse_items_bytes(b: Seq<u8>, pos: int, items: Seq<QuizItemModel>)
    requires
        0 <= pos,
        texts_fit(items),
        pos + items_bytes(items).len() <= b.len(),
        b.subrange(pos, pos + items_bytes(items).len()) == items_bytes(items),
    ensures
        parse_items(b, pos, items.len()) == Ok::<(Seq<QuizItemModel>, int), DecodeError>(
            (items, pos + items_bytes(items).len()),
        ),
    decreases items.len(),
{
    if items.len() > 0 {
        let init = items.drop_last();
        let last = items.last();
        let whole = items_bytes(items);
        let head = items_bytes(init);
        let hl = head.len() as int;
        let wl = whole.len() as int;
        assert(texts_fit(init)) by {
            assert forall|i: int| 0 <= i < init.len() implies text_fits(
                #[trigger] init[i].question,
            ) && text_fits(init[i].answer) by {
                assert(init[i] == items[i]);
            }
        }
        assert(text_fits(items[items.len() - 1].question));
        assert(b.subrange(pos, pos + hl) =~= whole.subrange(0, hl));
        assert(whole.subrange(0, hl) =~= head);
        lemma_parse_items_bytes(b, pos, init);
        assert(b.subrange(pos + hl, pos + wl) =~= whole.subrange(hl, wl));
        assert(whole.subrange(hl, wl) =~= item_bytes(last));
        lemma_parse_item_bytes(b, pos + hl, last);
        assert(init.push(last) =~= items);
        assert(parse_items(b, pos, items.len()) == Ok::<(Seq<QuizItemModel>, int), DecodeError>(
            (init.push(last), pos + wl),
        ));
    } else {
        assert(items =~= Seq::<QuizItemModel>::empty());
    }
}

/// Decoding the bytes of any quiz gives that quiz back: its items, in order, and nothing
/// else. This holds of every quiz, since a quiz holds at most `MAX_ITEMS` items and every
/// text that a `String` can hold fits the format.
pub proof fn lemma_round_trip(items: Seq<QuizItemModel>)
    requires
        items.len() <= MAX_ITEMS,
        texts_fit(items),
    ensures
        parse_quiz(quiz_bytes(items)) == Ok::<Seq<QuizItemModel>, DecodeError>(items),
{
    let b = quiz_bytes(items);
    let n = items.len() as u64;
    let body = items_bytes(items);
    lemma_auto_spec_u64_to_from_le_bytes();
    assert(b.subrange(1, 9) =~= spec_u64_to_le_bytes(n));
    assert(b.subrange(9, 9 + body.len() as int) =~= body);
    lemma_parse_items_bytes(b, 9, items);
}

/// A text that reads successfully at `pos` stands there as its own bytes.
proof fn lemma_parse_text_inverse(b: Seq<u8>, pos: int)
    requires
        0 <= pos,
        parse_text(b, pos) is Ok,
    ensures
        ({
            let (s, p) = parse_text(b, pos)->Ok_0;
            &&& pos <= p <= b.len()
            &&& text_fits(s)
            &&& b.subrange(pos, p) == text_bytes(s)
        }),
{
    let (s, p) = parse_text(b, pos)->Ok_0;
    let n = spec_u64_from_le_bytes(b.subrange(pos, pos + 8));
    let bytes = b.subrange(pos + 8, pos + 8 + n);
    lemma_auto_spec_u64_to_from_le_bytes();
    assert(spec_u64_to_le_bytes(n) == b.subrange(pos, pos + 8));
    vstd::utf8::decode_utf8_encode_utf8(bytes);
    assert(encode_utf8(s) == bytes);
    assert(b.subrange(pos, p) =~= b.subrange(pos, pos + 8) + bytes);
}

/// An item that reads successfully at `pos` stands there as its own bytes.
proof fn lemma_parse_item_inverse(b: Seq<u8>, pos: int)
    requires
        0 <= pos,
        parse_item(b, pos) is Ok,
    ensures
        ({
            let (it, p) = parse_item(b, pos)->Ok_0;
            &&& pos <= p <= b.len()
            &&& text_fits(it.question)
            &&& text_fits(it.answer)
            &&& b.subrange(pos, p) == item_bytes(it)
        }),
{
    let (it, p) = parse_item(b, pos)->Ok_0;
    lemma_parse_text_inverse(b, pos + 1);
    let p1 = parse_text(b, pos + 1)->Ok_0.1;
    lemma_parse_text_inverse(b, p1);
    assert(code_of_type(it.item_type) == b[pos]);
    assert(b.subrange(pos, p) =~= seq![b[pos]] + b.subrange(pos + 1, p1) + b.subrange(p1, p));
}

/// Items that read successfully from `pos` stand there as their own bytes.
proof fn lemma_parse_items_inverse(b: Seq<u8>, pos: int, n: nat)
    requires
        0 <= pos <= b.len(),
        parse_items(b, pos, n) is Ok,
    ensures
        ({
            let (items, p) = parse_items(b, pos, n)->Ok_0;
            &&& pos <= p <= b.len()
            &&& items.len() == n
            &&& texts_fit(items)
            &&& b.subrange(pos, p) == items_bytes(items)
        }),
    decreases n,
{
    if n == 0 {
        assert(b.subrange(pos, pos) =~= Seq::<u8>::empty());
    } else {
        lemma_parse_items_inverse(b, pos, (n - 1) as nat);
        let (init, p1) = parse_items(b, pos, (n - 1) as nat)->Ok_0;
        lemma_parse_item_inverse(b, p1);
        let (it, p) = parse_item(b, p1)->Ok_0;
        let items = init.push(it);
        assert(items.drop_last() =~= init);
        assert(b.subrange(pos, p) =~= b.subrange(pos, p1) + b.subrange(p1, p));
        assert(texts_fit(items)) by {
            assert forall|i: int| 0 <= i < items.len() implies text_fits(
                #[trigger] items[i].question,
            ) && text_fits(items[i].answer) by {
                if i < init.len() {
                    assert(items[i] == init[i]);
                }
            }
        }
    }
}

/// A quiz read from the front of a buffer stands there as exactly its own bytes.
pub proof fn lemma_prefix_is_encoding(b: Seq<u8>)
    requires
        parse_quiz_prefix(b) is Ok,
    ensures
        ({
            let (items, p) = parse_quiz_prefix(b)->Ok_0;
            &&& items.len() <= MAX_ITEMS
            &&& texts_fit(items)
            &&& 0 <= p <= b.len()
            &&& b.subrange(0, p) == quiz_bytes(items)
        }),
{
    let length = b[0];
    lemma_parse_items_inverse(b, 9, length as nat);
    let (items, p) = parse_quiz_prefix(b)->Ok_0;
    lemma_auto_spec_u64_to_from_le_bytes();
    assert(spec_u64_to_le_bytes(length as u64) == b.subrange(1, 9));
    assert(b.subrange(0, p) =~= seq![b[0]] + b.subrange(1, 9) + b.subrange(9, p));
}

/// A buffer that decodes as a quiz is exactly the bytes of that quiz: decoding accepts
/// nothing but what encoding writes.
pub proof fn lemma_decode_only_encodings(b: Seq<u8>)
    requires
        parse_quiz(b) is Ok,
    ensures
        ({
            let items = parse_quiz(b)->Ok_0;
            &&& items.len() <= MAX_ITEMS
            &&& texts_fit(items)
            &&& b == quiz_bytes(items)
        }),
{
    lemma_prefix_is_encoding(b);
    assert(b.subrange(0, b.len() as int) =~= b);
}

} // verus!
