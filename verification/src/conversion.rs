//! What becomes of a file once the theme converter has read it: either the
//! converted file, or an error that names the file and the line the reader
//! stopped on.
use vstd::prelude::*;
use vstd::utf8::{
    encode_scalar, encode_utf8, has_width_1_encoding, last_continuation_byte, leading_byte_width_1,
    leading_byte_width_2, leading_byte_width_3, leading_byte_width_4, second_last_continuation_byte,
    third_last_continuation_byte,
};

use crate::ask::Ask;
use crate::decimal::{decimal, push_decimal};

verus! {

/// The error the XML deserializer reports when a theme cannot be read.
#[verifier::external_type_specification]
#[verifier::external_body]
pub struct ExDeError(quick_xml::DeError);

/// The number of newline bytes in `bytes`.
pub open spec fn newline_count(bytes: Seq<u8>) -> nat
    decreases bytes.len(),
{
    if bytes.len() == 0 {
        0
    } else {
        newline_count(bytes.drop_last()) + (if bytes.last() == 10 {
            1nat
        } else {
            0nat
        })
    }
}

/// The number of newlines that precede byte offset `position` in the UTF-8
/// text `contents`.
pub open spec fn lines_before(contents: Seq<char>, position: int) -> nat {
    newline_count(encode_utf8(contents).take(position))
}

/// The number of newlines that precede byte offset `position` of `contents`;
/// the offset at which a reader stopped is reported as this line.
pub fn error_line(contents: &str, position: u64) -> (line: u64)
    requires
        position <= encode_utf8(contents@).len(),
    ensures
        line == lines_before(contents@, position as int),
{
    let bytes = contents.as_bytes();
    let n = bytes.len();
    assert(position <= n);
    let end = position as usize;
    let mut count: u64 = 0;
    let mut i: usize = 0;
    while i < end
        invariant
            bytes@ == encode_utf8(contents@),
            end == position,
            end <= bytes@.len(),
            i <= end,
            count == newline_count(bytes@.take(i as int)),
            count <= i,
        decreases end - i,
    {
        assert(bytes@.take(i + 1).drop_last() =~= bytes@.take(i as int));
        if bytes[i] == 10 {
            count = count + 1;
        }
        i = i + 1;
    }
    count
}

/// More newlines precede a later offset, and never more newlines than bytes.
pub proof fn lemma_lines_before_monotone(contents: Seq<char>, p: int, q: int)
    requires
        0 <= p <= q <= encode_utf8(contents).len(),
    ensures
        lines_before(contents, p) <= lines_before(contents, q),
        lines_before(contents, q) <= q,
    decreases q - p,
{
    let b = encode_utf8(contents);
    lemma_newline_count_bounded(b.take(q));
    if p < q {
        assert(b.take(q).drop_last() =~= b.take(q - 1));
        lemma_lines_before_monotone(contents, p, q - 1);
    }
}

/// A sequence of bytes holds no more newlines than bytes.
pub proof fn lemma_newline_count_bounded(bytes: Seq<u8>)
    ensures
        newline_count(bytes) <= bytes.len(),
    decreases bytes.len(),
{
    if bytes.len() > 0 {
        lemma_newline_count_bounded(bytes.drop_last());
    }
}

/// The number of newline characters in `chars`.
pub open spec fn char_newline_count(chars: Seq<char>) -> nat
    decreases chars.len(),
{
    if chars.len() == 0 {
        0
    } else {
        (if chars[0] == '\n' {
            1nat
        } else {
            0nat
        }) + char_newline_count(chars.drop_first())
    }
}

/// Newlines of two byte sequences add up when they are joined.
pub proof fn lemma_newline_count_concat(a: Seq<u8>, b: Seq<u8>)
    ensures
        newline_count(a + b) == newline_count(a) + newline_count(b),
    decreases b.len(),
{
    if b.len() > 0 {
        assert((a + b).drop_last() =~= a + b.drop_last());
        lemma_newline_count_concat(a, b.drop_last());
    } else {
        assert(a + b =~= a);
    }
}

/// The UTF-8 encoding of one character holds a newline byte exactly when the
/// character is a newline, and then just one.
pub proof fn lemma_scalar_newlines(c: char)
    ensures
        newline_count(encode_scalar(c as u32)) == (if c == '\n' {
            1nat
        } else {
            0nat
        }),
{
    let v = c as u32;
    let e = encode_scalar(v);
    assert(e.len() >= 1);
    if has_width_1_encoding(v) {
        let b = leading_byte_width_1(v);
        assert(b == 10 <==> v == 10) by (bit_vector)
            requires
                b == (v & 0x7F) as u8,
                v <= 0x7F,
        ;
        assert(e.drop_last() =~= Seq::<u8>::empty());
        assert(newline_count(Seq::<u8>::empty()) == 0);
    } else {
        assert forall|x: u32| (#[trigger] leading_byte_width_2(x)) != 10 by {
            assert((0xC0u8 | ((x >> 6) & 0x1F) as u8) != 10) by (bit_vector);
        }
        assert forall|x: u32| (#[trigger] leading_byte_width_3(x)) != 10 by {
            assert((0xE0u8 | ((x >> 12) & 0x0F) as u8) != 10) by (bit_vector);
        }
        assert forall|x: u32| (#[trigger] leading_byte_width_4(x)) != 10 by {
            assert((0xF0u8 | ((x >> 18) & 0x7) as u8) != 10) by (bit_vector);
        }
        assert forall|x: u32| (#[trigger] last_continuation_byte(x)) != 10 by {
            assert((0x80u8 | (x & 0x3F) as u8) != 10) by (bit_vector);
        }
        assert forall|x: u32| (#[trigger] second_last_continuation_byte(x)) != 10 by {
            assert((0x80u8 | ((x >> 6) & 0x3F) as u8) != 10) by (bit_vector);
        }
        assert forall|x: u32| (#[trigger] third_last_continuation_byte(x)) != 10 by {
            assert((0x80u8 | ((x >> 12) & 0x3F) as u8) != 10) by (bit_vector);
        }
        assert(c != '\n');
        lemma_no_newline_bytes(e);
    }
}

/// A byte sequence without the newline byte counts no newline.
proof fn lemma_no_newline_bytes(b: Seq<u8>)
    requires
        forall|i: int| 0 <= i < b.len() ==> #[trigger] b[i] != 10,
    ensures
        newline_count(b) == 0,
    decreases b.len(),
{
    if b.len() > 0 {
        lemma_no_newline_bytes(b.drop_last());
    }
}

/// Encoding a text splits where the text is split.
pub proof fn lemma_encode_split(chars: Seq<char>, k: int)
    requires
        0 <= k <= chars.len(),
    ensures
        encode_utf8(chars) == encode_utf8(chars.take(k)) + encode_utf8(chars.skip(k)),
    decreases k,
{
    if k == 0 {
        assert(chars.take(0) =~= Seq::<char>::empty());
        assert(chars.skip(0) =~= chars);
        assert(encode_utf8(Seq::<char>::empty()) + encode_utf8(chars) =~= encode_utf8(chars));
    } else {
        let rest = chars.drop_first();
        lemma_encode_split(rest, k - 1);
        assert(chars.take(k).drop_first() =~= rest.take(k - 1));
        assert(chars.skip(k) =~= rest.skip(k - 1));
        assert(chars.take(k)[0] == chars[0]);
        assert(encode_utf8(chars.take(k)) == encode_scalar(chars[0] as u32) + encode_utf8(rest.take(k - 1)));
        assert(encode_utf8(chars) =~= encode_utf8(chars.take(k)) + encode_utf8(chars.skip(k)));
    }
}

/// The newline bytes of an encoded text are its newline characters.
pub proof fn lemma_encoded_newlines(chars: Seq<char>)
    ensures
        newline_count(encode_utf8(chars)) == char_newline_count(chars),
    decreases chars.len(),
{
    if chars.len() > 0 {
        lemma_encoded_newlines(chars.drop_first());
        lemma_scalar_newlines(chars[0]);
        lemma_newline_count_concat(encode_scalar(chars[0] as u32), encode_utf8(chars.drop_first()));
    } else {
        assert(newline_count(Seq::<u8>::empty()) == 0);
    }
}

/// At an offset that ends the first `k` characters of a text, the line an
/// error is reported on is the number of newline characters among those `k`
/// characters: `contents[..position].chars().filter(|c| *c == '\n').count()`.
pub proof fn lemma_lines_before_counts_characters(contents: Seq<char>, k: int)
    requires
        0 <= k <= contents.len(),
    ensures
        lines_before(contents, encode_utf8(contents.take(k)).len() as int) == char_newline_count(
            contents.take(k),
        ),
{
    lemma_encode_split(contents, k);
    let prefix = encode_utf8(contents.take(k));
    assert(encode_utf8(contents).take(prefix.len() as int) =~= prefix);
    lemma_encoded_newlines(contents.take(k));
}

/// How reading a file's theme failed: the deserializer's error and the byte
/// offset of the text at which the reader stood.
pub struct ParseFailure {
    pub cause: quick_xml::DeError,
    pub position: u64,
}

/// A file whose theme could not be read: its name, the deserializer's error,
/// and the line on which reading stopped (counted from 0: the number of
/// newlines before the reader's offset).
pub struct DeErrorWrapper {
    pub name: String,
    pub cause: quick_xml::DeError,
    pub line_number: u64,
}

/// What the converter has made of a file: the text of the converted theme, or
/// how reading the file failed.
pub type ConversionOutcome = Result<String, ParseFailure>;

/// The outcome fits the file: a reading failure stands at an offset within the
/// file's text.
pub open spec fn outcome_fits(ask: Ask, outcome: ConversionOutcome) -> bool {
    match outcome {
        Ok(_) => true,
        Err(f) => f.position <= encode_utf8(ask.contents@).len(),
    }
}

/// The entry shown for `ask` once the converter produced `outcome`. A
/// converted theme becomes a conversion result with the same name, the
/// converted text, and the version it was converted to; a failure becomes an
/// error naming the file and the line on which reading stopped.
pub open spec fn conversion_entry(ask: Ask, outcome: ConversionOutcome) -> Result<
    Ask,
    DeErrorWrapper,
> {
    match outcome {
        Ok(generated) => Ok(
            Ask { name: ask.name, contents: generated, version: ask.to_version.unwrap(), to_version: None },
        ),
        Err(f) => Err(
            DeErrorWrapper {
                name: ask.name,
                cause: f.cause,
                line_number: lines_before(ask.contents@, f.position as int) as u64,
            },
        ),
    }
}

/// The entry shown for `ask` once the converter produced `outcome`; `ask` must
/// be a file to convert, not a conversion result.
pub fn finish_conversion(ask: &Ask, outcome: ConversionOutcome) -> (entry: Result<Ask, DeErrorWrapper>)
    requires
        ask.to_version is Some,
        outcome_fits(*ask, outcome),
    ensures
        entry == conversion_entry(*ask, outcome),
        outcome matches Ok(generated) ==> entry matches Ok(result) && {
            &&& result.contents == generated
            &&& result.name == ask.name
            &&& Some(result.version) == ask.to_version
            &&& result.to_version is None
        },
        outcome matches Err(f) ==> entry matches Err(e) && {
            &&& e.name == ask.name
            &&& e.cause == f.cause
            &&& e.line_number as int == newline_count(encode_utf8(ask.contents@).take(f.position as int))
        },
{
    proof {
        lemma_conversion_entry(*ask, outcome);
    }
    match outcome {
        Ok(generated) => {
            let to_version = match ask.to_version {
                Some(v) => v,
                None => ask.version,
            };
            Ok(Ask { name: ask.name.clone(), contents: generated, version: to_version, to_version: None })
        },
        Err(failure) => {
            let line_number = error_line(ask.contents.as_str(), failure.position);
            Err(DeErrorWrapper { name: ask.name.clone(), cause: failure.cause, line_number })
        },
    }
}

/// A successful conversion always yields a conversion result holding exactly
/// the generated text, under the file's name, in the version that was asked
/// for; a failed read always yields an error (never a converted file) that
/// keeps the file's name and the reader's error and reports the number of
/// newlines before the reader's offset, which is never past that offset.
pub proof fn lemma_conversion_entry(ask: Ask, outcome: ConversionOutcome)
    requires
        ask.to_version is Some,
        outcome_fits(ask, outcome),
    ensures
        outcome matches Ok(generated) ==> conversion_entry(ask, outcome) matches Ok(result) && {
            &&& result.contents == generated
            &&& result.name == ask.name
            &&& Some(result.version) == ask.to_version
            &&& result.converted()
        },
        outcome matches Err(f) ==> conversion_entry(ask, outcome) matches Err(e) && {
            &&& e.name == ask.name
            &&& e.cause == f.cause
            &&& e.line_number as int == newline_count(encode_utf8(ask.contents@).take(f.position as int))
            &&& e.line_number <= f.position
        },
{
    if let Err(f) = outcome {
        lemma_lines_before_monotone(ask.contents@, f.position as int, f.position as int);
    }
}

/// Converting a list never swaps, drops or invents files: the entry at each
/// place comes from the file and the outcome at that place, a generated text
/// becomes that place's converted file, and a failed read that place's error.
pub proof fn lemma_convert_all_entries(
    asks: Seq<Ask>,
    outcomes: Seq<ConversionOutcome>,
    entries: Seq<Result<Ask, DeErrorWrapper>>,
    i: int,
)
    requires
        outcomes.len() == asks.len(),
        entries.len() == asks.len(),
        0 <= i < asks.len(),
        asks[i].to_version is Some,
        outcome_fits(asks[i], outcomes[i]),
        entries[i] == conversion_entry(asks[i], outcomes[i]),
    ensures
        outcomes[i] matches Ok(generated) ==> entries[i] matches Ok(result) && result.contents == generated
            && result.name == asks[i].name && Some(result.version) == asks[i].to_version
            && result.to_version is None,
        outcomes[i] matches Err(f) ==> entries[i] matches Err(e) && e.name == asks[i].name && e.cause
            == f.cause && e.line_number as int == newline_count(
            encode_utf8(asks[i].contents@).take(f.position as int),
        ),
{
    lemma_conversion_entry(asks[i], outcomes[i]);
}

/// The entries shown for a list of files, given what the converter made of
/// each: one entry per file, in the list's order, each as `finish_conversion`
/// gives it.
pub fn convert_all(asks: &Vec<Ask>, outcomes: Vec<ConversionOutcome>) -> (entries: Vec<
    Result<Ask, DeErrorWrapper>,
>)
    requires
        outcomes.len() == asks.len(),
        forall|i: int| 0 <= i < asks.len() ==> (#[trigger] asks[i]).to_version is Some,
        forall|i: int| 0 <= i < asks.len() ==> outcome_fits(#[trigger] asks[i], outcomes[i]),
    ensures
        entries.len() == asks.len(),
        forall|i: int|
            0 <= i < asks.len() ==> #[trigger] entries[i] == conversion_entry(asks[i], outcomes[i]),
        forall|i: int|
            0 <= i < asks.len() ==> (#[trigger] outcomes[i] matches Ok(generated) ==> entries[i] matches Ok(
                result,
            ) && result.contents == generated && result.name == asks[i].name && Some(result.version)
                == asks[i].to_version && result.to_version is None),
        forall|i: int|
            0 <= i < asks.len() ==> (#[trigger] outcomes[i] matches Err(f) ==> entries[i] matches Err(e)
                && e.name == asks[i].name && e.cause == f.cause && e.line_number as int == newline_count(
                encode_utf8(asks[i].contents@).take(f.position as int),
            )),
{
    let n = asks.len();
    let ghost all = outcomes@;
    let mut rest = outcomes;
    let mut reversed: Vec<Result<Ask, DeErrorWrapper>> = Vec::new();
    while rest.len() > 0
        invariant
            n == asks.len(),
            all.len() == n,
            rest@ == all.take(rest.len() as int),
            rest.len() + reversed.len() == n,
            forall|i: int| 0 <= i < n ==> (#[trigger] asks[i]).to_version is Some,
            forall|i: int| 0 <= i < n ==> outcome_fits(#[trigger] asks[i], all[i]),
            forall|k: int|
                0 <= k < reversed.len() ==> #[trigger] reversed[k] == conversion_entry(
                    asks[n - 1 - k],
                    all[n - 1 - k],
                ),
        decreases rest.len(),
    {
        let idx = rest.len() - 1;
        let outcome = rest.pop().unwrap();
        assert(outcome == all[idx as int]);
        assert(rest@ =~= all.take(idx as int));
        let entry = finish_conversion(&asks[idx], outcome);
        reversed.push(entry);
    }
    let mut entries: Vec<Result<Ask, DeErrorWrapper>> = Vec::new();
    while reversed.len() > 0
        invariant
            n == asks.len(),
            all.len() == n,
            reversed.len() + entries.len() == n,
            forall|k: int|
                0 <= k < reversed.len() ==> #[trigger] reversed[k] == conversion_entry(
                    asks[n - 1 - k],
                    all[n - 1 - k],
                ),
            forall|i: int|
                0 <= i < entries.len() ==> #[trigger] entries[i] == conversion_entry(asks[i], all[i]),
        decreases reversed.len(),
    {
        let k = reversed.len() - 1;
        let entry = reversed.pop().unwrap();
        assert(entry == conversion_entry(asks[n - 1 - k], all[n - 1 - k]));
        entries.push(entry);
    }
    assert forall|i: int| 0 <= i < asks.len() implies #[trigger] outcomes@[i] matches Ok(generated) ==> entries[i] matches Ok(
        result,
    ) && result.contents == generated && result.name == asks[i].name && Some(result.version)
        == asks[i].to_version && result.to_version is None by {
        lemma_conversion_entry(asks[i], all[i]);
    }
    assert forall|i: int| 0 <= i < asks.len() implies #[trigger] outcomes@[i] matches Err(f) ==> entries[i] matches Err(e)
        && e.name == asks[i].name && e.cause == f.cause && e.line_number as int == newline_count(
        encode_utf8(asks[i].contents@).take(f.position as int),
    ) by {
        lemma_conversion_entry(asks[i], all[i]);
    }
    entries
}

impl DeErrorWrapper {
    /// The heading shown for this error: `Error on line ` and the line number.
    pub fn error_label(&self) -> (s: String)
        ensures
            s@ == "Error on line "@ + decimal(self.line_number as nat),
    {
        let mut s = String::from_str("Error on line ");
        push_decimal(&mut s, self.line_number);
        s
    }
}

} // verus!
